//! The orchestrator's dispatch decisions.
//!
//! Running containers, awaiting them and streaming their logs is I/O; what
//! the orchestrator decides between those steps is plain logic and lives
//! here: whether an endpoint passes its startup validation, whether a
//! package's image policy lets a job be dispatched at all, and which
//! endpoint a ready job goes to.  An endpoint's capacity is respected by
//! construction: a job is only ever assigned where the current load is
//! below it.

use vstd::prelude::*;
use crate::tree::Tree;
use crate::tree::TreeNode;
use crate::tree::arena_ordered;

verus! {

/// One container host as the orchestrator sees it: identity, declared
/// capacity, current load, and the images present on it.
#[derive(Debug)]
pub struct EndpointState {
    pub name: String,
    pub capacity: u64,
    pub load: u64,
    pub images: Vec<String>,
}

/// Does the endpoint report `image` as present?
pub open spec fn has_image(e: EndpointState, image: Seq<char>) -> bool {
    exists|i: int| 0 <= i < e.images@.len() && #[trigger] e.images@[i]@ == image
}

/// May a job needing `image` be assigned to the endpoint right now: the
/// image is present and the load is below the declared capacity.
pub open spec fn eligible(e: EndpointState, image: Seq<char>) -> bool {
    has_image(e, image) && e.load < e.capacity
}

/// Why an endpoint failed its startup validation.
#[derive(Clone, Copy, Debug, PartialEq, Eq, Structural)]
pub enum EndpointSetupError {
    /// A required image is missing; carries its index in the required list.
    MissingImage { image: usize },
    /// The host's API version is not among the accepted ones.
    UnsupportedVersion,
}

/// Does `hay` hold a string equal to `needle`?
fn contains_string(hay: &Vec<String>, needle: &String) -> (r: bool)
    ensures
        r == exists|i: int| 0 <= i < hay@.len() && #[trigger] hay@[i]@ == needle@,
{
    let n = hay.len();
    let mut i: usize = 0;
    while i < n
        invariant
            0 <= i <= n,
            n == hay@.len(),
            forall|j: int| 0 <= j < i ==> #[trigger] hay@[j]@ != needle@,
        decreases n - i,
    {
        if hay[i] == *needle {
            return true;
        }
        i = i + 1;
    }
    false
}

impl EndpointState {
    /// Does this endpoint report `image` as present?
    pub fn knows_image(&self, image: &String) -> (r: bool)
        ensures
            r == has_image(*self, image@),
    {
        contains_string(&self.images, image)
    }

    /// Validates the endpoint at orchestrator start.
    ///
    /// Succeeds exactly when every required image is present and the host's
    /// API version is among the accepted ones; the first missing image, or
    /// the unsupported version, is reported.
    pub fn validate(
        &self,
        required_images: &Vec<String>,
        accepted_versions: &Vec<String>,
        version: &String,
    ) -> (r: Result<(), EndpointSetupError>)
        ensures
            match r {
                Ok(()) => {
                    &&& forall|k: int|
                        0 <= k < required_images@.len() ==> has_image(
                            *self,
                            #[trigger] required_images@[k]@,
                        )
                    &&& exists|v: int|
                        0 <= v < accepted_versions@.len() && #[trigger] accepted_versions@[v]@
                            == version@
                },
                Err(EndpointSetupError::MissingImage { image }) => {
                    &&& image < required_images@.len()
                    &&& !has_image(*self, required_images@[image as int]@)
                },
                Err(EndpointSetupError::UnsupportedVersion) => forall|v: int|
                    0 <= v < accepted_versions@.len() ==> #[trigger] accepted_versions@[v]@
                        != version@,
            },
    {
        let n = required_images.len();
        let mut k: usize = 0;
        while k < n
            invariant
                0 <= k <= n,
                n == required_images@.len(),
                forall|j: int|
                    0 <= j < k ==> has_image(*self, #[trigger] required_images@[j]@),
            decreases n - k,
        {
            if !self.knows_image(&required_images[k]) {
                return Err(EndpointSetupError::MissingImage { image: k });
            }
            k = k + 1;
        }
        if !contains_string(accepted_versions, version) {
            return Err(EndpointSetupError::UnsupportedVersion);
        }
        Ok(())
    }

    /// Takes one unit of capacity for a newly assigned job.  A caller can
    /// only get here below capacity, so the endpoint never carries more
    /// simultaneous jobs than it declared.
    pub fn assign(&mut self)
        requires
            old(self).load < old(self).capacity,
        ensures
            final(self).load == old(self).load + 1,
            final(self).capacity == old(self).capacity,
            final(self).name@ == old(self).name@,
            final(self).images@ == old(self).images@,
            final(self).load <= final(self).capacity,
    {
        self.load = self.load + 1;
    }

    /// Returns one unit of capacity when a job terminates.
    pub fn release(&mut self)
        requires
            old(self).load >= 1,
        ensures
            final(self).load == old(self).load - 1,
            final(self).capacity == old(self).capacity,
            final(self).name@ == old(self).name@,
            final(self).images@ == old(self).images@,
    {
        self.load = self.load - 1;
    }
}

/// Picks the endpoint a ready job goes to: among those with the image
/// present and free capacity, the least loaded, ties broken by configured
/// order.  Returns nothing exactly when no endpoint is eligible.
pub fn select_endpoint(endpoints: &Vec<EndpointState>, image: &String) -> (r: Option<usize>)
    ensures
        match r {
            Some(i) => {
                &&& i < endpoints@.len()
                &&& eligible(endpoints@[i as int], image@)
                &&& forall|j: int|
                    0 <= j < endpoints@.len() && eligible(#[trigger] endpoints@[j], image@)
                        ==> endpoints@[i as int].load < endpoints@[j].load || (endpoints@[
                        i as int
                    ].load == endpoints@[j].load && i <= j)
            },
            None => forall|j: int|
                0 <= j < endpoints@.len() ==> !eligible(#[trigger] endpoints@[j], image@),
        },
{
    let n = endpoints.len();
    let mut best: Option<usize> = None;
    let mut k: usize = 0;
    while k < n
        invariant
            0 <= k <= n,
            n == endpoints@.len(),
            match best {
                Some(i) => {
                    &&& i < k
                    &&& eligible(endpoints@[i as int], image@)
                    &&& forall|j: int|
                        0 <= j < k && eligible(#[trigger] endpoints@[j], image@) ==> endpoints@[
                            i as int
                        ].load < endpoints@[j].load || (endpoints@[i as int].load == endpoints@[
                            j
                        ].load && i <= j)
                },
                None => forall|j: int|
                    0 <= j < k ==> !eligible(#[trigger] endpoints@[j], image@),
            },
        decreases n - k,
    {
        let e = &endpoints[k];
        if e.load < e.capacity && e.knows_image(image) {
            match best {
                None => {
                    best = Some(k);
                },
                Some(i) => {
                    if e.load < endpoints[i].load {
                        best = Some(k);
                    }
                },
            }
        }
        k = k + 1;
    }
    best
}

/// Why a submission was refused before any job was dispatched.
#[derive(Clone, Copy, Debug, PartialEq, Eq, Structural)]
pub enum PolicyViolation {
    /// The package declares an allowlist and the image is not on it.
    NotAllowed,
    /// The image stands on the package's denylist.
    Denied,
}

/// Checks one package's image policy.
///
/// Succeeds exactly when the image stands on the declared allowlist, if one
/// is declared, and not on the denylist.
pub fn image_policy(
    allowed: &Option<Vec<String>>,
    denied: &Vec<String>,
    image: &String,
) -> (r: Result<(), PolicyViolation>)
    ensures
        match r {
            Ok(()) => {
                &&& match allowed {
                    Some(list) => exists|i: int|
                        0 <= i < list@.len() && #[trigger] list@[i]@ == image@,
                    None => true,
                }
                &&& forall|i: int| 0 <= i < denied@.len() ==> #[trigger] denied@[i]@ != image@
            },
            Err(PolicyViolation::NotAllowed) => match allowed {
                Some(list) => forall|i: int|
                    0 <= i < list@.len() ==> #[trigger] list@[i]@ != image@,
                None => false,
            },
            Err(PolicyViolation::Denied) => exists|i: int|
                0 <= i < denied@.len() && #[trigger] denied@[i]@ == image@,
        },
{
    match allowed {
        Some(list) => {
            if !contains_string(list, image) {
                return Err(PolicyViolation::NotAllowed);
            }
        },
        None => {},
    }
    if contains_string(denied, image) {
        return Err(PolicyViolation::Denied);
    }
    Ok(())
}


/// May the job of node `j` start now: it has not started, and every child
/// has completed with success.
pub open spec fn node_ready(
    nodes: Seq<TreeNode>,
    succeeded: Seq<bool>,
    started: Seq<bool>,
    j: int,
) -> bool {
    &&& !started[j]
    &&& forall|d: int|
        0 <= d < nodes[j].children@.len() ==> succeeded[#[trigger] nodes[j].children@[d] as int]
}

/// The ready queue: exactly the nodes that have not started and whose
/// dependencies have all succeeded, in arena order.  A job enters it at
/// most once, and never before its dependencies' success is observed.
pub fn ready_nodes(tree: &Tree, succeeded: &Vec<bool>, started: &Vec<bool>) -> (r: Vec<usize>)
    requires
        succeeded@.len() == tree.nodes@.len(),
        started@.len() == tree.nodes@.len(),
        arena_ordered(tree.nodes@),
    ensures
        forall|k: int|
            0 <= k < r@.len() ==> r@[k] < tree.nodes@.len() && node_ready(
                tree.nodes@,
                succeeded@,
                started@,
                #[trigger] r@[k] as int,
            ),
        forall|k: int| 0 <= k < r@.len() - 1 ==> r@[k] < #[trigger] r@[k + 1],
        forall|j: int|
            0 <= j < tree.nodes@.len() && node_ready(tree.nodes@, succeeded@, started@, j)
                ==> r@.contains(j as usize),
{
    let n = tree.nodes.len();
    let mut out: Vec<usize> = Vec::new();
    let mut j: usize = 0;
    while j < n
        invariant
            0 <= j <= n,
            n == tree.nodes@.len(),
            succeeded@.len() == n,
            started@.len() == n,
            arena_ordered(tree.nodes@),
            forall|k: int|
                0 <= k < out@.len() ==> out@[k] < j && node_ready(
                    tree.nodes@,
                    succeeded@,
                    started@,
                    #[trigger] out@[k] as int,
                ),
            forall|k: int| 0 <= k < out@.len() - 1 ==> out@[k] < #[trigger] out@[k + 1],
            forall|q: int|
                0 <= q < j && node_ready(tree.nodes@, succeeded@, started@, q) ==> out@.contains(
                    q as usize,
                ),
        decreases n - j,
    {
        let ghost out_old = out@;
        if !started[j] {
            let node = &tree.nodes[j];
            let nc = node.children.len();
            let mut d: usize = 0;
            let mut all_ok: bool = true;
            while d < nc
                invariant
                    0 <= d <= nc,
                    j < n,
                    n == tree.nodes@.len(),
                    succeeded@.len() == n,
                    arena_ordered(tree.nodes@),
                    nc == tree.nodes@[j as int].children@.len(),
                    all_ok == forall|e: int|
                        0 <= e < d ==> succeeded@[#[trigger] tree.nodes@[j as int].children@[
                            e
                        ] as int],
                decreases nc - d,
            {
                let c = tree.nodes[j].children[d];
                proof {
                    assert(tree.nodes@[j as int].children@[d as int] < j);
                }
                if !succeeded[c] {
                    all_ok = false;
                }
                proof {
                    if !succeeded@[c as int] {
                        assert(!(forall|e: int|
                            0 <= e < d + 1 ==> succeeded@[#[trigger] tree.nodes@[j as int].children@[
                                e
                            ] as int])) by {
                            assert(tree.nodes@[j as int].children@[d as int] == c);
                        }
                    }
                }
                d = d + 1;
            }
            if all_ok {
                out.push(j);
            }
        }
        proof {
            assert forall|q: int|
                0 <= q < j + 1 && node_ready(tree.nodes@, succeeded@, started@, q) implies out@
                .contains(q as usize) by {
                if q < j {
                    let k = choose|k: int| 0 <= k < out_old.len() && out_old[k] == q as usize;
                    assert(out@[k] == q as usize);
                } else {
                    assert(out@[out@.len() - 1] == q as usize);
                }
            }
        }
        j = j + 1;
    }
    out
}

/// Is the job of node `j` cut off by an upstream failure: some dependency
/// failed, or is itself cut off?
pub open spec fn blocked(nodes: Seq<TreeNode>, failed: Seq<bool>, j: int) -> bool
    decreases j,
{
    exists|d: int|
        0 <= d < nodes[j].children@.len() && ({
            let c = #[trigger] nodes[j].children@[d] as int;
            failed[c] || (0 <= c < j && blocked(nodes, failed, c))
        })
}

/// Marks every node that can never be scheduled because a job somewhere
/// below it failed: these are reported as skipped, not retried.
pub fn skipped_nodes(tree: &Tree, failed: &Vec<bool>) -> (r: Vec<bool>)
    requires
        failed@.len() == tree.nodes@.len(),
        arena_ordered(tree.nodes@),
    ensures
        r@.len() == tree.nodes@.len(),
        forall|j: int|
            0 <= j < r@.len() ==> #[trigger] r@[j] == blocked(tree.nodes@, failed@, j),
{
    let n = tree.nodes.len();
    let mut out: Vec<bool> = Vec::new();
    let mut j: usize = 0;
    while j < n
        invariant
            0 <= j <= n,
            n == tree.nodes@.len(),
            failed@.len() == n,
            arena_ordered(tree.nodes@),
            out@.len() == j,
            forall|q: int|
                0 <= q < j ==> #[trigger] out@[q] == blocked(tree.nodes@, failed@, q),
        decreases n - j,
    {
        let nc = tree.nodes[j].children.len();
        let mut d: usize = 0;
        let mut cut: bool = false;
        while d < nc
            invariant
                0 <= d <= nc,
                j < n,
                n == tree.nodes@.len(),
                failed@.len() == n,
                arena_ordered(tree.nodes@),
                out@.len() == j,
                forall|q: int|
                    0 <= q < j ==> #[trigger] out@[q] == blocked(tree.nodes@, failed@, q),
                nc == tree.nodes@[j as int].children@.len(),
                cut == exists|e: int|
                    0 <= e < d && ({
                        let c = #[trigger] tree.nodes@[j as int].children@[e] as int;
                        failed@[c] || (0 <= c < j && blocked(tree.nodes@, failed@, c))
                    }),
            decreases nc - d,
        {
            let c = tree.nodes[j].children[d];
            proof {
                assert(tree.nodes@[j as int].children@[d as int] < j);
            }
            let child_cut = failed[c] || out[c];
            let ghost cut_old = cut;
            if child_cut {
                cut = true;
            }
            proof {
                let nodes_s = tree.nodes@;
                let cd = nodes_s[j as int].children@[d as int] as int;
                assert(out@[cd] == blocked(nodes_s, failed@, cd));
                if cut {
                    if cut_old {
                        let e = choose|e: int|
                            0 <= e < d && ({
                                let c2 = #[trigger] nodes_s[j as int].children@[e] as int;
                                failed@[c2] || (0 <= c2 < j && blocked(nodes_s, failed@, c2))
                            });
                        assert(0 <= e < d + 1 && ({
                            let c2 = nodes_s[j as int].children@[e] as int;
                            failed@[c2] || (0 <= c2 < j && blocked(nodes_s, failed@, c2))
                        }));
                    } else {
                        assert(failed@[cd] || (0 <= cd < j && blocked(nodes_s, failed@, cd)));
                        assert(0 <= d < d + 1 && ({
                            let c2 = nodes_s[j as int].children@[d as int] as int;
                            failed@[c2] || (0 <= c2 < j && blocked(nodes_s, failed@, c2))
                        }));
                    }
                } else {
                    if exists|e: int|
                        0 <= e < d + 1 && ({
                            let c2 = #[trigger] nodes_s[j as int].children@[e] as int;
                            failed@[c2] || (0 <= c2 < j && blocked(nodes_s, failed@, c2))
                        }) {
                        let e = choose|e: int|
                            0 <= e < d + 1 && ({
                                let c2 = #[trigger] nodes_s[j as int].children@[e] as int;
                                failed@[c2] || (0 <= c2 < j && blocked(nodes_s, failed@, c2))
                            });
                        assert(e < d);
                        assert(false);
                    }
                }
            }
            d = d + 1;
        }
        proof {
            assert(cut == blocked(tree.nodes@, failed@, j as int));
        }
        out.push(cut);
        j = j + 1;
    }
    out
}

} // verus!
