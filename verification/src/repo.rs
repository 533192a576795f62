//! Counting package definition files.
//!
//! The repository is a directory tree of `pkg.toml` package definitions;
//! its size drives the progress display.  Walking the tree is I/O and
//! happens outside; the counting over the found file names is done here.

use vstd::prelude::*;

verus! {

/// The file name `pkg.toml`, as bytes.
pub open spec fn pkg_file_name() -> Seq<u8> {
    seq![112u8, 107u8, 103u8, 46u8, 116u8, 111u8, 109u8, 108u8]
}

/// How many of the names are `pkg.toml`.
pub open spec fn count_pkg_spec(names: Seq<Seq<u8>>) -> nat
    decreases names.len(),
{
    if names.len() == 0 {
        0
    } else {
        (if names[0] == pkg_file_name() {
            1nat
        } else {
            0nat
        }) + count_pkg_spec(names.drop_first())
    }
}

/// Counts the package definition files among the found file names.
pub fn count_pkg_files(file_names: &Vec<Vec<u8>>) -> (n: u64)
    ensures
        n == count_pkg_spec(file_names.deep_view()),
{
    let ghost dv = file_names.deep_view();
    let total = file_names.len();
    let mut pkg: Vec<u8> = Vec::new();
    pkg.push(112);
    pkg.push(107);
    pkg.push(103);
    pkg.push(46);
    pkg.push(116);
    pkg.push(111);
    pkg.push(109);
    pkg.push(108);
    proof {
        assert(pkg@ =~= pkg_file_name());
        assert(dv.skip(0) =~~= dv);
    }
    let mut n: u64 = 0;
    let mut k: usize = 0;
    while k < total
        invariant
            0 <= k <= total,
            total == file_names@.len(),
            dv == file_names.deep_view(),
            dv.len() == total,
            forall|j: int| 0 <= j < total ==> dv[j] == #[trigger] file_names@[j]@,
            pkg@ == pkg_file_name(),
            n <= k,
            count_pkg_spec(dv) == n + count_pkg_spec(dv.skip(k as int)),
        decreases total - k,
    {
        let ghost s_k = dv.skip(k as int);
        proof {
            assert(s_k[0] == dv[k as int]);
            assert(s_k.drop_first() =~~= dv.skip(k + 1));
        }
        let name = &file_names[k];
        if bytes_eq_ref(name, &pkg) {
            proof {
                assert(dv[k as int] =~= pkg_file_name());
            }
            n = n + 1;
        } else {
            proof {
                if dv[k as int] == pkg_file_name() {
                    assert(name@ == pkg@);
                }
            }
        }
        k = k + 1;
    }
    proof {
        assert(dv.skip(total as int) =~~= Seq::<Seq<u8>>::empty());
    }
    n
}

/// Byte-wise equality of two vectors.
fn bytes_eq_ref(a: &Vec<u8>, b: &Vec<u8>) -> (r: bool)
    ensures
        r == (a@ == b@),
{
    let r = a == b;
    proof {
        if r {
            assert(a@ =~= b@);
        } else {
            if a@ == b@ {
                assert(forall|i: int| 0 <= i < a@.len() ==> a@[i] == b@[i]);
                assert(false);
            }
        }
    }
    r
}

} // verus!
