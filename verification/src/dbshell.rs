//! Choosing the interactive database shell.
//!
//! The journal can be opened in one of two interactive clients.  Locating
//! the binary on the system and spawning it is I/O and happens outside;
//! which client a requested name stands for is decided here.

use vstd::prelude::*;

verus! {

/// The supported interactive clients.
#[derive(Clone, Copy, Debug, PartialEq, Eq, Structural)]
pub enum PgTool {
    Psql,
    PgCli,
}

/// Why a requested tool was refused.
#[derive(Clone, Copy, Debug, PartialEq, Eq, Structural)]
pub enum DbShellError {
    /// The name matches no supported client.
    UnsupportedTool,
}

/// The name `psql`, as bytes.
pub open spec fn psql_name() -> Seq<u8> {
    seq![112u8, 115u8, 113u8, 108u8]
}

/// The name `pgcli`, as bytes.
pub open spec fn pgcli_name() -> Seq<u8> {
    seq![112u8, 103u8, 99u8, 108u8, 105u8]
}

/// The client a requested tool name stands for.
///
/// Exactly `psql` and `pgcli` are supported; any other name is refused.
pub fn tool_for_name(name: &[u8]) -> (r: Result<PgTool, DbShellError>)
    ensures
        match r {
            Ok(t) => (t == PgTool::Psql && name@ == psql_name()) || (t == PgTool::PgCli && name@
                == pgcli_name()),
            Err(_) => name@ != psql_name() && name@ != pgcli_name(),
        },
{
    let mut psql: Vec<u8> = Vec::new();
    psql.push(112);
    psql.push(115);
    psql.push(113);
    psql.push(108);
    let mut pgcli: Vec<u8> = Vec::new();
    pgcli.push(112);
    pgcli.push(103);
    pgcli.push(99);
    pgcli.push(108);
    pgcli.push(105);
    proof {
        assert(psql@ =~= psql_name());
        assert(pgcli@ =~= pgcli_name());
    }
    if bytes_eq(name, &psql) {
        Ok(PgTool::Psql)
    } else if bytes_eq(name, &pgcli) {
        Ok(PgTool::PgCli)
    } else {
        Err(DbShellError::UnsupportedTool)
    }
}

/// Byte-wise equality of a slice and a vector.
fn bytes_eq(a: &[u8], b: &Vec<u8>) -> (r: bool)
    ensures
        r == (a@ == b@),
{
    if a.len() != b.len() {
        return false;
    }
    let n = a.len();
    let mut i: usize = 0;
    while i < n
        invariant
            0 <= i <= n,
            n == a@.len() == b@.len(),
            forall|j: int| 0 <= j < i ==> a@[j] == b@[j],
        decreases n - i,
    {
        if a[i] != b[i] {
            return false;
        }
        i = i + 1;
    }
    proof {
        assert(a@ =~= b@);
    }
    true
}

} // verus!
