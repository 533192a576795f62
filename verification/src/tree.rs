//! The dependency tree.
//!
//! A submission expands its root package into the transitive dependency
//! graph by depth-first resolution against the repository.  A package
//! already expanded is not expanded again, so a diamond collapses into one
//! node; a dependency that is also an ancestor along the current expansion
//! path is a cycle and is rejected with that path.  The finished tree is a
//! flat node arena in which parents stand after their children, so walking
//! the nodes in order yields every package with its dependencies first.

use vstd::prelude::*;

verus! {

/// A dependency declaration: the name and version it must resolve to.
#[derive(Debug)]
pub struct Dep {
    pub name: String,
    pub version: String,
}

/// One package definition: identity, and what it depends on.
#[derive(Debug)]
pub struct PackageDef {
    pub name: String,
    pub version: String,
    pub deps: Vec<Dep>,
}

/// The repository of package definitions a submission resolves against.
#[derive(Debug)]
pub struct Repository {
    pub packages: Vec<PackageDef>,
}

/// Does the definition at `q` satisfy the dependency `d`?
pub open spec fn dep_matches(p: PackageDef, d: Dep) -> bool {
    p.name@ == d.name@ && p.version@ == d.version@
}

/// Is there an edge from package `a` to package `b`: does `b` satisfy some
/// dependency of `a`?
pub open spec fn pkg_edge(repo: Seq<PackageDef>, a: int, b: int) -> bool {
    &&& 0 <= a < repo.len()
    &&& 0 <= b < repo.len()
    &&& exists|d: int| 0 <= d < repo[a].deps@.len() && dep_matches(repo[b], #[trigger] repo[a].deps@[d])
}

impl Repository {
    /// The first definition matching the dependency, if any: resolution is
    /// by name and exact version.
    pub fn find(&self, d: &Dep) -> (r: Option<usize>)
        ensures
            match r {
                Some(i) => {
                    &&& i < self.packages@.len()
                    &&& dep_matches(self.packages@[i as int], *d)
                    &&& forall|q: int| 0 <= q < i ==> !dep_matches(#[trigger] self.packages@[q], *d)
                },
                None => forall|q: int|
                    0 <= q < self.packages@.len() ==> !dep_matches(#[trigger] self.packages@[q], *d),
            },
    {
        let n = self.packages.len();
        let mut i: usize = 0;
        while i < n
            invariant
                0 <= i <= n,
                n == self.packages@.len(),
                forall|q: int| 0 <= q < i ==> !dep_matches(#[trigger] self.packages@[q], *d),
            decreases n - i,
        {
            let p = &self.packages[i];
            if p.name == d.name && p.version == d.version {
                return Some(i);
            }
            i = i + 1;
        }
        None
    }

    /// The indices of every definition with the given name, in order.
    pub fn find_by_name(&self, name: &String) -> (r: Vec<usize>)
        ensures
            forall|k: int|
                0 <= k < r@.len() ==> r@[k] < self.packages@.len() && self.packages@[
                    r@[k] as int
                ].name@ == name@,
            forall|q: int|
                0 <= q < self.packages@.len() && self.packages@[q].name@ == name@ ==> r@.contains(
                    q as usize,
                ),
    {
        let n = self.packages.len();
        let mut out: Vec<usize> = Vec::new();
        let mut i: usize = 0;
        while i < n
            invariant
                0 <= i <= n,
                n == self.packages@.len(),
                forall|k: int|
                    0 <= k < out@.len() ==> out@[k] < n && self.packages@[out@[k] as int].name@
                        == name@,
                forall|q: int|
                    0 <= q < i && self.packages@[q].name@ == name@ ==> out@.contains(q as usize),
            decreases n - i,
        {
            let ghost out_old = out@;
            if self.packages[i].name == *name {
                out.push(i);
            }
            proof {
                assert forall|q: int|
                    0 <= q < i + 1 && self.packages@[q].name@ == name@ implies out@.contains(
                    q as usize,
                ) by {
                    if q < i {
                        let k = choose|k: int| 0 <= k < out_old.len() && out_old[k] == q as usize;
                        assert(out@[k] == q as usize);
                    } else {
                        assert(out@[out@.len() - 1] == q as usize);
                    }
                }
            }
            i = i + 1;
        }
        out
    }
}

/// One tree node: the package it stands for, and its children, one per
/// dependency, each earlier in the arena.
#[derive(Debug)]
pub struct TreeNode {
    pub pkg: usize,
    pub children: Vec<usize>,
}

/// The dependency tree: a flat arena with children before parents, and the
/// root as one of its nodes.
#[derive(Debug)]
pub struct Tree {
    pub nodes: Vec<TreeNode>,
    pub root: usize,
}

/// The node at `j` is well formed: it stands for a repository package, and
/// has one child per dependency, each an earlier node whose package
/// satisfies that dependency.
pub open spec fn node_wf(repo: Seq<PackageDef>, nodes: Seq<TreeNode>, j: int) -> bool {
    &&& nodes[j].pkg < repo.len()
    &&& nodes[j].children@.len() == repo[nodes[j].pkg as int].deps@.len()
    &&& forall|d: int|
        0 <= d < nodes[j].children@.len() ==> {
            let c = #[trigger] nodes[j].children@[d];
            &&& c < j
            &&& dep_matches(repo[nodes[c as int].pkg as int], repo[nodes[j].pkg as int].deps@[d])
        }
}

/// The whole arena is well formed and no package appears in two nodes: a
/// diamond has collapsed.
pub open spec fn tree_wf(repo: Seq<PackageDef>, nodes: Seq<TreeNode>) -> bool {
    &&& forall|j: int| 0 <= j < nodes.len() ==> node_wf(repo, nodes, j)
    &&& forall|j1: int, j2: int|
        0 <= j1 < j2 < nodes.len() ==> nodes[j1].pkg != nodes[j2].pkg
}


/// The arena keeps children strictly before their parents.
pub open spec fn arena_ordered(nodes: Seq<TreeNode>) -> bool {
    forall|j: int, d: int|
        0 <= j < nodes.len() && 0 <= d < nodes[j].children@.len() ==> (#[trigger] nodes[
            j
        ].children@[d]) < j
}

/// Why the tree could not be built.
#[derive(Debug)]
pub enum TreeError {
    /// The dependency `dep` of package `package` resolves to nothing.
    Unresolved { package: usize, dep: usize },
    /// The packages along `path` depend on one another in a circle.
    Cycle { path: Vec<usize> },
}

/// How many packages the expansion has not touched yet.
pub open spec fn count_zeros(s: Seq<u8>) -> nat
    decreases s.len(),
{
    if s.len() == 0 {
        0
    } else {
        (if s[0] == 0 {
            1nat
        } else {
            0nat
        }) + count_zeros(s.drop_first())
    }
}

/// Touching more packages leaves fewer untouched.
proof fn lemma_count_zeros_monotone(a: Seq<u8>, b: Seq<u8>)
    requires
        a.len() == b.len(),
        forall|i: int| 0 <= i < a.len() ==> a[i] <= #[trigger] b[i],
    ensures
        count_zeros(b) <= count_zeros(a),
    decreases a.len(),
{
    if a.len() > 0 {
        assert(forall|i: int|
            0 <= i < a.drop_first().len() ==> a.drop_first()[i] <= #[trigger] b.drop_first()[i])
            by {
            assert forall|i: int|
                0 <= i < a.drop_first().len() implies a.drop_first()[i] <= #[trigger] b.drop_first()[i] by {
                assert(a.drop_first()[i] == a[i + 1]);
                assert(b.drop_first()[i] == b[i + 1]);
            }
        }
        lemma_count_zeros_monotone(a.drop_first(), b.drop_first());
    }
}

/// Touching a package that was untouched strictly shrinks the untouched
/// count.
proof fn lemma_count_zeros_strict(a: Seq<u8>, b: Seq<u8>, w: int)
    requires
        a.len() == b.len(),
        forall|i: int| 0 <= i < a.len() ==> a[i] <= #[trigger] b[i],
        0 <= w < a.len(),
        a[w] == 0,
        b[w] != 0,
    ensures
        count_zeros(b) < count_zeros(a),
    decreases a.len(),
{
    assert(forall|i: int|
        0 <= i < a.drop_first().len() ==> a.drop_first()[i] <= #[trigger] b.drop_first()[i]) by {
        assert forall|i: int|
            0 <= i < a.drop_first().len() implies a.drop_first()[i] <= #[trigger] b.drop_first()[i] by {
            assert(a.drop_first()[i] == a[i + 1]);
            assert(b.drop_first()[i] == b[i + 1]);
        }
    }
    if w == 0 {
        lemma_count_zeros_monotone(a.drop_first(), b.drop_first());
    } else {
        assert(a.drop_first()[w - 1] == a[w]);
        assert(b.drop_first()[w - 1] == b[w]);
        lemma_count_zeros_strict(a.drop_first(), b.drop_first(), w - 1);
    }
}

/// The invariant of the depth-first expansion.
///
/// `state` marks each package untouched, on the current path, or done;
/// `node_of` names the finished node of each done package; `stack` is the
/// current path, every step of it a dependency edge.
pub open spec fn dfs_inv(
    repo: Seq<PackageDef>,
    state: Seq<u8>,
    node_of: Seq<usize>,
    nodes: Seq<TreeNode>,
    stack: Seq<usize>,
) -> bool {
    &&& state.len() == repo.len()
    &&& node_of.len() == repo.len()
    &&& forall|p: int| 0 <= p < state.len() ==> #[trigger] state[p] <= 2
    &&& forall|p: int|
        0 <= p < state.len() && #[trigger] state[p] == 2 ==> node_of[p] < nodes.len()
            && nodes[node_of[p] as int].pkg == p
    &&& forall|j: int|
        0 <= j < nodes.len() ==> (#[trigger] nodes[j].pkg < repo.len() && state[nodes[j].pkg as int]
            == 2 && node_of[nodes[j].pkg as int] == j)
    &&& forall|j: int| 0 <= j < nodes.len() ==> node_wf(repo, nodes, j)
    &&& forall|i: int|
        0 <= i < stack.len() ==> #[trigger] stack[i] < repo.len() && state[stack[i] as int] == 1
    &&& forall|p: int|
        0 <= p < state.len() && #[trigger] state[p] == 1 ==> stack.contains(p as usize)
    &&& forall|i: int|
        0 <= i < stack.len() - 1 ==> #[trigger] pkg_edge(repo, stack[i] as int, stack[i + 1] as int)
}

/// Expands one package: resolves its dependencies depth first, reusing
/// nodes already built, and pushes its own node after its children.
#[verifier::rlimit(80)]
fn expand(
    repo: &Repository,
    pkg: usize,
    state: &mut Vec<u8>,
    node_of: &mut Vec<usize>,
    nodes: &mut Vec<TreeNode>,
    stack: &mut Vec<usize>,
) -> (r: Result<usize, TreeError>)
    requires
        pkg < repo.packages@.len(),
        old(state)@[pkg as int] != 1,
        dfs_inv(repo.packages@, old(state)@, old(node_of)@, old(nodes)@, old(stack)@),
        old(stack)@.len() >= 1 ==> pkg_edge(
            repo.packages@,
            old(stack)@[old(stack)@.len() - 1] as int,
            pkg as int,
        ),
    ensures
        dfs_inv(repo.packages@, final(state)@, final(node_of)@, final(nodes)@, final(stack)@),
        final(state)@.len() == old(state)@.len(),
        forall|i: int|
            0 <= i < old(state)@.len() ==> old(state)@[i] <= #[trigger] final(state)@[i],
        final(nodes)@.len() >= old(nodes)@.len(),
        forall|j: int| 0 <= j < old(nodes)@.len() ==> final(nodes)@[j] == old(nodes)@[j],
        match r {
            Ok(n) => {
                &&& final(stack)@ == old(stack)@
                &&& n < final(nodes)@.len()
                &&& final(nodes)@[n as int].pkg == pkg
                &&& final(state)@[pkg as int] == 2
                &&& (old(state)@[pkg as int] == 0 && repo.packages@[pkg as int].deps@.len() == 0
                    ==> final(nodes)@.len() == old(nodes)@.len() + 1)
            },
            Err(e) => match e {
                TreeError::Unresolved { package, dep } => {
                    &&& package < repo.packages@.len()
                    &&& dep < repo.packages@[package as int].deps@.len()
                    &&& forall|q: int|
                        0 <= q < repo.packages@.len() ==> !dep_matches(
                            #[trigger] repo.packages@[q],
                            repo.packages@[package as int].deps@[dep as int],
                        )
                },
                TreeError::Cycle { path } => {
                    &&& path@.len() >= 1
                    &&& forall|i: int| 0 <= i < path@.len() ==> #[trigger] path@[i] < repo.packages@.len()
                    &&& forall|i: int|
                        0 <= i < path@.len() - 1 ==> #[trigger] pkg_edge(
                            repo.packages@,
                            path@[i] as int,
                            path@[i + 1] as int,
                        )
                    &&& pkg_edge(
                        repo.packages@,
                        path@[path@.len() - 1] as int,
                        path@[0] as int,
                    )
                },
            },
        },
    decreases count_zeros(state@),
{
    proof {
        assert(old(state)@[pkg as int] <= 2);
    }
    let st = state[pkg];
    if st == 2 {
        let n = node_of[pkg];
        return Ok(n);
    }
    let ghost state0 = state@;
    state[pkg] = 1;
    stack.push(pkg);
    proof {
        let repo_s = repo.packages@;
        assert(state0[pkg as int] == 0);
        assert(stack@[stack@.len() - 1] == pkg);
        assert forall|idx: int|
            0 <= idx < stack@.len() implies #[trigger] stack@[idx] < repo_s.len()
            && state@[stack@[idx] as int] == 1 by {
            if idx < stack@.len() - 1 {
                assert(stack@[idx] == old(stack)@[idx]);
                assert(old(state)@[old(stack)@[idx] as int] == 1);
                assert(old(stack)@[idx] != pkg);
            }
        }
        assert forall|p: int|
            0 <= p < state@.len() && #[trigger] state@[p] == 1 implies stack@.contains(
            p as usize,
        ) by {
            if p == pkg as int {
                assert(stack@[stack@.len() - 1] == pkg);
                assert(stack@.contains(pkg));
            } else {
                assert(old(state)@[p] == 1);
                let w = choose|w: int|
                    0 <= w < old(stack)@.len() && old(stack)@[w] == p as usize;
                assert(stack@[w] == p as usize);
                assert(stack@.contains(p as usize));
            }
        }
        assert forall|t: int|
            0 <= t < stack@.len() - 1 implies #[trigger] pkg_edge(
            repo_s,
            stack@[t] as int,
            stack@[t + 1] as int,
        ) by {
            if t < stack@.len() - 2 {
                assert(stack@[t] == old(stack)@[t]);
                assert(stack@[t + 1] == old(stack)@[t + 1]);
                assert(pkg_edge(repo_s, old(stack)@[t] as int, old(stack)@[t + 1] as int));
            } else {
                assert(stack@[t] == old(stack)@[old(stack)@.len() - 1]);
                assert(stack@[t + 1] == pkg);
            }
        }
        assert forall|p: int|
            0 <= p < state@.len() && #[trigger] state@[p] == 2 implies node_of@[p]
            < nodes@.len() && nodes@[node_of@[p] as int].pkg == p by {
            assert(p != pkg as int);
            assert(old(state)@[p] == 2);
        }
        assert forall|j: int|
            0 <= j < nodes@.len() implies (#[trigger] nodes@[j].pkg < repo_s.len()
            && state@[nodes@[j].pkg as int] == 2 && node_of@[nodes@[j].pkg as int] == j) by {
            assert(old(state)@[nodes@[j].pkg as int] == 2);
            assert(nodes@[j].pkg != pkg);
        }
    }
    let mut children: Vec<usize> = Vec::new();
    let ndeps = repo.packages[pkg].deps.len();
    let mut d: usize = 0;
    while d < ndeps
        invariant
            pkg < repo.packages@.len(),
            ndeps == repo.packages@[pkg as int].deps@.len(),
            0 <= d <= ndeps,
            dfs_inv(repo.packages@, state@, node_of@, nodes@, stack@),
            state0 == old(state)@,
            state@.len() == state0.len(),
            forall|i: int| 0 <= i < state0.len() ==> state0[i] <= #[trigger] state@[i],
            state0[pkg as int] == 0,
            d == 0 ==> nodes@ == old(nodes)@,
            state@[pkg as int] == 1,
            stack@ == old(stack)@.push(pkg),
            nodes@.len() >= old(nodes)@.len(),
            forall|j: int| 0 <= j < old(nodes)@.len() ==> nodes@[j] == old(nodes)@[j],
            children@.len() == d,
            forall|e: int|
                0 <= e < d ==> {
                    let c = #[trigger] children@[e];
                    &&& c < nodes@.len()
                    &&& dep_matches(
                        repo.packages@[nodes@[c as int].pkg as int],
                        repo.packages@[pkg as int].deps@[e],
                    )
                },
        decreases ndeps - d,
    {
        let dep = &repo.packages[pkg].deps[d];
        match repo.find(dep) {
            None => {
                return Err(TreeError::Unresolved { package: pkg, dep: d });
            },
            Some(dp) => {
                let dst = state[dp];
                if dst == 1 {
                    proof {
                        assert(dep_matches(repo.packages@[dp as int], repo.packages@[pkg as int].deps@[d as int]));
                        assert(pkg_edge(repo.packages@, pkg as int, dp as int));
                        assert(stack@[stack@.len() - 1] == pkg);
                        assert(stack@.contains(dp));
                    }
                    let path = collect_cycle(repo, stack, dp);
                    return Err(TreeError::Cycle { path });
                } else if dst == 2 {
                    let c = node_of[dp];
                    children.push(c);
                } else {
                    let ghost state_call = state@;
                    let ghost nodes_call = nodes@;
                    proof {
                        lemma_count_zeros_strict(state0, state_call, pkg as int);
                        assert(dep_matches(
                            repo.packages@[dp as int],
                            repo.packages@[pkg as int].deps@[d as int],
                        ));
                        assert(pkg_edge(repo.packages@, pkg as int, dp as int));
                        assert(stack@[stack@.len() - 1] == pkg);
                    }
                    let sub = expand(repo, dp, state, node_of, nodes, stack);
                    proof {
                        assert forall|ii: int|
                            0 <= ii < state0.len() implies state0[ii] <= #[trigger] state@[ii] by {
                            assert(state0[ii] <= state_call[ii]);
                            assert(state_call[ii] <= state@[ii]);
                        }
                        assert forall|j: int|
                            0 <= j < old(nodes)@.len() implies nodes@[j] == old(nodes)@[j] by {
                            assert(nodes@[j] == nodes_call[j]);
                        }
                        assert forall|e2: int|
                            0 <= e2 < d implies ({
                            let c = #[trigger] children@[e2];
                            &&& c < nodes@.len()
                            &&& dep_matches(
                                repo.packages@[nodes@[c as int].pkg as int],
                                repo.packages@[pkg as int].deps@[e2],
                            )
                        }) by {
                            let c = children@[e2];
                            assert(c < nodes_call.len());
                            assert(nodes@[c as int] == nodes_call[c as int]);
                        }
                    }
                    match sub {
                        Ok(c) => {
                            proof {
                                assert(stack@[stack@.len() - 1] == pkg);
                                assert(state@[pkg as int] == 1);
                            }
                            children.push(c);
                        },
                        Err(e) => {
                            return Err(e);
                        },
                    }
                }
            },
        }
        d = d + 1;
    }
    let state_len: usize = state.len();
    let ghost state_l = state@;
    let ghost node_of_l = node_of@;
    let ghost nodes_l = nodes@;
    let ghost stack_l = stack@;
    let _popped = stack.pop();
    state[pkg] = 2;
    let n = nodes.len();
    node_of[pkg] = n;
    nodes.push(TreeNode { pkg, children });
    proof {
        let repo_s = repo.packages@;
        assert(stack@ =~= old(stack)@);
        assert(nodes@[n as int].pkg == pkg);
        assert forall|p: int|
            0 <= p < state@.len() && #[trigger] state@[p] == 2 implies node_of@[p] < nodes@.len()
            && nodes@[node_of@[p] as int].pkg == p by {
            if p != pkg as int {
                assert(state_l[p] == 2);
                assert(node_of_l[p] < nodes_l.len());
                assert(nodes@[node_of_l[p] as int] == nodes_l[node_of_l[p] as int]);
            }
        }
        assert forall|j: int|
            0 <= j < nodes@.len() implies (#[trigger] nodes@[j].pkg < repo_s.len()
            && state@[nodes@[j].pkg as int] == 2 && node_of@[nodes@[j].pkg as int] == j) by {
            if j < nodes_l.len() {
                assert(nodes@[j] == nodes_l[j]);
                assert(state_l[nodes_l[j].pkg as int] == 2);
                assert(nodes_l[j].pkg != pkg);
            }
        }
        assert forall|j: int| 0 <= j < nodes@.len() implies node_wf(repo_s, nodes@, j) by {
            if j < nodes_l.len() {
                assert(node_wf(repo_s, nodes_l, j));
                assert(nodes@[j] == nodes_l[j]);
                assert forall|dd: int|
                    0 <= dd < nodes@[j].children@.len() implies ({
                    let c = #[trigger] nodes@[j].children@[dd];
                    &&& c < j
                    &&& dep_matches(
                        repo_s[nodes@[c as int].pkg as int],
                        repo_s[nodes@[j].pkg as int].deps@[dd],
                    )
                }) by {
                    let c = nodes_l[j].children@[dd];
                    assert(c < j);
                    assert(nodes@[c as int] == nodes_l[c as int]);
                }
            } else {
                assert(nodes@[j].pkg == pkg);
                assert(nodes@[j].children@ == children@);
                assert forall|dd: int|
                    0 <= dd < nodes@[j].children@.len() implies ({
                    let c = #[trigger] nodes@[j].children@[dd];
                    &&& c < j
                    &&& dep_matches(
                        repo_s[nodes@[c as int].pkg as int],
                        repo_s[nodes@[j].pkg as int].deps@[dd],
                    )
                }) by {
                    let c = children@[dd];
                    assert(c < nodes_l.len());
                    assert(nodes@[c as int] == nodes_l[c as int]);
                }
            }
        }
        assert forall|i: int|
            0 <= i < stack@.len() implies #[trigger] stack@[i] < repo_s.len()
            && state@[stack@[i] as int] == 1 by {
            assert(stack@[i] == stack_l[i]);
            assert(stack@[i] == old(stack)@[i]);
            assert(old(state)@[old(stack)@[i] as int] == 1);
            assert(old(stack)@[i] != pkg);
            assert(state_l[stack_l[i] as int] == 1);
        }
        assert forall|p: int|
            0 <= p < state@.len() && #[trigger] state@[p] == 1 implies stack@.contains(
            p as usize,
        ) by {
            assert(p != pkg as int);
            assert(state_l.len() == state_len);
            assert(p < usize::MAX as int + 1);
            assert(state_l[p] == 1);
            assert(stack_l.contains(p as usize));
            let w = choose|w: int| 0 <= w < stack_l.len() && stack_l[w] == p as usize;
            assert(stack_l[stack_l.len() - 1] == pkg);
            assert(w < stack_l.len() - 1) by {
                if w == stack_l.len() - 1 {
                    assert(stack_l[w] == pkg);
                    assert(p as usize == pkg);
                    assert(p == pkg as int);
                    assert(false);
                }
            }
            assert(stack@[w] == p as usize);
            assert(stack@.contains(p as usize));
        }
        assert forall|i: int|
            0 <= i < stack@.len() - 1 implies pkg_edge(
            repo_s,
            #[trigger] stack@[i] as int,
            stack@[i + 1] as int,
        ) by {
            assert(stack@[i] == stack_l[i]);
            assert(stack@[i + 1] == stack_l[i + 1]);
            assert(pkg_edge(repo_s, stack_l[i] as int, stack_l[i + 1] as int));
        }
    }
    Ok(n)
}

/// The suffix of the path that begins at `target`: a genuine cycle, since
/// each step of the path is a dependency edge and the top of the path
/// depends on `target` again.
fn collect_cycle(repo: &Repository, stack: &Vec<usize>, target: usize) -> (path: Vec<usize>)
    requires
        target < repo.packages@.len(),
        stack@.contains(target),
        forall|t: int|
            0 <= t < stack@.len() ==> #[trigger] stack@[t] < repo.packages@.len(),
        forall|t: int|
            0 <= t < stack@.len() - 1 ==> #[trigger] pkg_edge(
                repo.packages@,
                stack@[t] as int,
                stack@[t + 1] as int,
            ),
        stack@.len() >= 1 ==> pkg_edge(
            repo.packages@,
            stack@[stack@.len() - 1] as int,
            target as int,
        ),
    ensures
        path@.len() >= 1,
        forall|i: int| 0 <= i < path@.len() ==> #[trigger] path@[i] < repo.packages@.len(),
        forall|i: int|
            0 <= i < path@.len() - 1 ==> #[trigger] pkg_edge(
                repo.packages@,
                path@[i] as int,
                path@[i + 1] as int,
            ),
        pkg_edge(repo.packages@, path@[path@.len() - 1] as int, path@[0] as int),
{
    let n = stack.len();
    let ghost w = choose|w: int| 0 <= w < stack@.len() && stack@[w] == target;
    let mut i: usize = 0;
    while stack[i] != target
        invariant
            0 <= i <= w,
            w < n,
            n == stack@.len(),
            stack@[w] == target,
            forall|q: int| 0 <= q < i ==> stack@[q] != target,
        decreases w - i,
    {
        i = i + 1;
        proof {
            if i > w {
                assert(stack@[w] != target);
            }
        }
    }
    let mut path: Vec<usize> = Vec::new();
    let mut k: usize = i;
    while k < n
        invariant
            i <= k <= n,
            i < n,
            n == stack@.len(),
            target < repo.packages@.len(),
            stack@[i as int] == target,
            forall|t: int| 0 <= t < stack@.len() ==> #[trigger] stack@[t] < repo.packages@.len(),
            forall|t: int|
                0 <= t < stack@.len() - 1 ==> #[trigger] pkg_edge(
                    repo.packages@,
                    stack@[t] as int,
                    stack@[t + 1] as int,
                ),
            n >= 1 ==> pkg_edge(repo.packages@, stack@[n - 1] as int, target as int),
            path@.len() == k - i,
            forall|q: int| 0 <= q < path@.len() ==> path@[q] == stack@[i + q],
        decreases n - k,
    {
        path.push(stack[k]);
        k = k + 1;
    }
    proof {
        assert(path@[0] == stack@[i as int]);
        assert forall|q: int|
            0 <= q < path@.len() - 1 implies pkg_edge(
            repo.packages@,
            #[trigger] path@[q] as int,
            path@[q + 1] as int,
        ) by {
            assert(path@[q] == stack@[i + q]);
            assert(path@[q + 1] == stack@[i + q + 1]);
            assert(pkg_edge(repo.packages@, stack@[i + q] as int, stack@[i + q + 1] as int));
        }
        assert forall|q: int|
            0 <= q < path@.len() implies #[trigger] path@[q]
            < repo.packages@.len() by {
            assert(path@[q] == stack@[i + q]);
        }
        assert(path@[path@.len() - 1] == stack@[n - 1]);
        assert(pkg_edge(repo.packages@, stack@[n - 1] as int, target as int));
    }
    path
}

impl Tree {
    /// Expands `root` into its dependency tree.
    ///
    /// Succeeds with a well-formed arena whose last node is the root and in
    /// which every node stands after its children: dependencies come first.
    /// A root without dependencies yields exactly one node.  A dependency
    /// that resolves to nothing, or a dependency circle, is rejected before
    /// any tree exists, with the circle's path reported.
    pub fn add_package(repo: &Repository, root: usize) -> (r: Result<Tree, TreeError>)
        requires
            root < repo.packages@.len(),
        ensures
            match r {
                Ok(t) => {
                    &&& tree_wf(repo.packages@, t.nodes@)
                    &&& arena_ordered(t.nodes@)
                    &&& t.nodes@.len() >= 1
                    &&& t.root < t.nodes@.len()
                    &&& t.nodes@[t.root as int].pkg == root
                    &&& (repo.packages@[root as int].deps@.len() == 0 ==> t.nodes@.len() == 1)
                },
                Err(e) => match e {
                    TreeError::Unresolved { package, dep } => {
                        &&& package < repo.packages@.len()
                        &&& dep < repo.packages@[package as int].deps@.len()
                        &&& forall|q: int|
                            0 <= q < repo.packages@.len() ==> !dep_matches(
                                #[trigger] repo.packages@[q],
                                repo.packages@[package as int].deps@[dep as int],
                            )
                    },
                    TreeError::Cycle { path } => {
                        &&& path@.len() >= 1
                        &&& forall|i: int|
                            0 <= i < path@.len() ==> #[trigger] path@[i] < repo.packages@.len()
                        &&& forall|i: int|
                            0 <= i < path@.len() - 1 ==> pkg_edge(
                                repo.packages@,
                                #[trigger] path@[i] as int,
                                path@[i + 1] as int,
                            )
                        &&& pkg_edge(
                            repo.packages@,
                            path@[path@.len() - 1] as int,
                            path@[0] as int,
                        )
                    },
                },
            },
    {
        let n = repo.packages.len();
        let mut state: Vec<u8> = vec![0u8; n];
        let mut node_of: Vec<usize> = vec![0usize; n];
        let mut nodes: Vec<TreeNode> = Vec::new();
        let mut stack: Vec<usize> = Vec::new();
        match expand(repo, root, &mut state, &mut node_of, &mut nodes, &mut stack) {
            Ok(rn) => {
                proof {
                    assert forall|j: int, dd: int|
                        0 <= j < nodes@.len() && 0 <= dd < nodes@[j].children@.len() implies (
                    #[trigger] nodes@[j].children@[dd]) < j by {
                        assert(node_wf(repo.packages@, nodes@, j));
                    }
                    assert forall|j1: int, j2: int|
                        0 <= j1 < j2 < nodes@.len() implies nodes@[j1].pkg != nodes@[j2].pkg by {
                        if nodes@[j1].pkg == nodes@[j2].pkg {
                            assert(node_of@[nodes@[j1].pkg as int] == j1);
                            assert(node_of@[nodes@[j2].pkg as int] == j2);
                        }
                    }
                }
                Ok(Tree { nodes, root: rn })
            },
            Err(e) => Err(e),
        }
    }

    /// Every package of the tree, children before parents: the arena order.
    pub fn all_packages(&self) -> (r: Vec<usize>)
        ensures
            r@.len() == self.nodes@.len(),
            forall|j: int| 0 <= j < r@.len() ==> r@[j] == self.nodes@[j].pkg,
    {
        let n = self.nodes.len();
        let mut out: Vec<usize> = Vec::new();
        let mut j: usize = 0;
        while j < n
            invariant
                0 <= j <= n,
                n == self.nodes@.len(),
                out@.len() == j,
                forall|q: int| 0 <= q < j ==> out@[q] == self.nodes@[q].pkg,
            decreases n - j,
        {
            out.push(self.nodes[j].pkg);
            j = j + 1;
        }
        out
    }
}


/// Groups the tree's jobs into phase-ordered sets.
///
/// Returns the sets and, for each node, the index of its set.  Within one
/// set, jobs may run in parallel; a job's dependencies always stand in a
/// strictly earlier set, so consuming the sets in order runs every
/// dependency to completion before its dependents start.  Every node lands
/// in exactly one set, in arena order within the set.
pub fn sets_from_tree(tree: &Tree) -> (r: (Vec<Vec<usize>>, Vec<usize>))
    requires
        arena_ordered(tree.nodes@),
    ensures
        r.1@.len() == tree.nodes@.len(),
        forall|j: int| 0 <= j < r.1@.len() ==> #[trigger] r.1@[j] < r.0@.len(),
        forall|s: int, k: int|
            0 <= s < r.0@.len() && 0 <= k < r.0@[s]@.len() ==> (#[trigger] r.0@[s]@[k])
                < tree.nodes@.len() && r.1@[r.0@[s]@[k] as int] == s,
        forall|s: int, k1: int, k2: int|
            0 <= s < r.0@.len() && 0 <= k1 < k2 < r.0@[s]@.len() ==> (#[trigger] r.0@[s]@[k1])
                < (#[trigger] r.0@[s]@[k2]),
        forall|j: int|
            0 <= j < tree.nodes@.len() ==> r.0@[#[trigger] r.1@[j] as int]@.contains(j as usize),
        forall|j: int, d: int|
            0 <= j < tree.nodes@.len() && 0 <= d < tree.nodes@[j].children@.len() ==> r.1@[(
            #[trigger] tree.nodes@[j].children@[d]) as int] < r.1@[j],
{
    let n = tree.nodes.len();
    let mut level: Vec<usize> = Vec::new();
    let mut maxlevel: usize = 0;
    let mut j: usize = 0;
    while j < n
        invariant
            0 <= j <= n,
            n == tree.nodes@.len(),
            arena_ordered(tree.nodes@),
            level@.len() == j,
            forall|q: int| 0 <= q < j ==> #[trigger] level@[q] <= q,
            forall|q: int| 0 <= q < j ==> #[trigger] level@[q] <= maxlevel,
            j > 0 ==> maxlevel < n,
            j == 0 ==> maxlevel == 0,
            forall|q: int, d: int|
                0 <= q < j && 0 <= d < tree.nodes@[q].children@.len() ==> level@[(
                #[trigger] tree.nodes@[q].children@[d]) as int] < level@[q],
        decreases n - j,
    {
        let nc = tree.nodes[j].children.len();
        let mut m: usize = 0;
        let mut d: usize = 0;
        while d < nc
            invariant
                0 <= d <= nc,
                j < n,
                n == tree.nodes@.len(),
                arena_ordered(tree.nodes@),
                nc == tree.nodes@[j as int].children@.len(),
                level@.len() == j,
                forall|q: int| 0 <= q < j ==> #[trigger] level@[q] <= q,
                m <= j,
                forall|e: int|
                    0 <= e < d ==> level@[(#[trigger] tree.nodes@[j as int].children@[e]) as int]
                        < m,
            decreases nc - d,
        {
            let c = tree.nodes[j].children[d];
            proof {
                assert(tree.nodes@[j as int].children@[d as int] < j);
            }
            let lc = level[c];
            if lc + 1 > m {
                m = lc + 1;
            }
            d = d + 1;
        }
        level.push(m);
        if m > maxlevel {
            maxlevel = m;
        }
        j = j + 1;
    }
    let mut sets: Vec<Vec<usize>> = Vec::new();
    if n == 0 {
        proof {
            assert(sets@.len() == 0);
        }
        return (sets, level);
    }
    let nlevels = maxlevel + 1;
    let mut s: usize = 0;
    while s < nlevels
        invariant
            0 <= s <= nlevels,
            nlevels == maxlevel + 1,
            n == tree.nodes@.len(),
            level@.len() == n,
            forall|q: int| 0 <= q < n ==> #[trigger] level@[q] <= maxlevel,
            sets@.len() == s,
            forall|s2: int, k: int|
                0 <= s2 < s && 0 <= k < sets@[s2]@.len() ==> (#[trigger] sets@[s2]@[k]) < n
                    && level@[sets@[s2]@[k] as int] == s2,
            forall|s2: int, k1: int, k2: int|
                0 <= s2 < s && 0 <= k1 < k2 < sets@[s2]@.len() ==> (#[trigger] sets@[s2]@[k1])
                    < (#[trigger] sets@[s2]@[k2]),
            forall|q: int|
                0 <= q < n && level@[q] < s ==> sets@[#[trigger] level@[q] as int]@.contains(
                    q as usize,
                ),
        decreases nlevels - s,
    {
        let mut bucket: Vec<usize> = Vec::new();
        let mut q: usize = 0;
        while q < n
            invariant
                0 <= q <= n,
                s < nlevels,
                n == tree.nodes@.len(),
                level@.len() == n,
                forall|k: int|
                    0 <= k < bucket@.len() ==> (#[trigger] bucket@[k]) < q && level@[bucket@[
                        k
                    ] as int] == s,
                forall|k1: int, k2: int|
                    0 <= k1 < k2 < bucket@.len() ==> (#[trigger] bucket@[k1]) < (
                    #[trigger] bucket@[k2]),
                forall|q2: int|
                    0 <= q2 < q && level@[q2] == s ==> bucket@.contains(q2 as usize),
            decreases n - q,
        {
            let ghost bucket_old = bucket@;
            if level[q] == s {
                bucket.push(q);
            }
            proof {
                assert forall|q2: int|
                    0 <= q2 < q + 1 && level@[q2] == s implies bucket@.contains(q2 as usize) by {
                    if q2 < q {
                        let k = choose|k: int|
                            0 <= k < bucket_old.len() && bucket_old[k] == q2 as usize;
                        assert(bucket@[k] == q2 as usize);
                    } else {
                        assert(bucket@[bucket@.len() - 1] == q2 as usize);
                    }
                }
            }
            q = q + 1;
        }
        let ghost sets_old = sets@;
        sets.push(bucket);
        proof {
            assert forall|q2: int|
                0 <= q2 < n && level@[q2] < s + 1 implies sets@[
                #[trigger] level@[q2] as int
            ]@.contains(q2 as usize) by {
                if level@[q2] < s {
                    assert(sets@[level@[q2] as int] == sets_old[level@[q2] as int]);
                } else {
                    assert(sets@[s as int]@.contains(q2 as usize));
                }
            }
        }
        s = s + 1;
    }
    proof {
        assert forall|j2: int, d: int|
            0 <= j2 < n && 0 <= d < tree.nodes@[j2].children@.len() implies level@[(
        #[trigger] tree.nodes@[j2].children@[d]) as int] < level@[j2] by {}
        assert forall|j2: int| 0 <= j2 < n implies #[trigger] level@[j2] < sets@.len() by {}
    }
    (sets, level)
}

/// One build job, derived from one tree node.
#[derive(Debug)]
pub struct BuildJob {
    pub name: String,
    pub version: String,
    pub image: String,
}

/// One job per tree node, in arena order: a job's dependencies stand
/// earlier in the vector, so running the jobs in order runs every
/// dependency before its dependents.  A tree of one node yields exactly
/// one job; a diamond of four packages yields exactly four.
pub fn jobs_from_tree(repo: &Repository, tree: &Tree, image: &String) -> (r: Vec<BuildJob>)
    requires
        tree_wf(repo.packages@, tree.nodes@),
    ensures
        r@.len() == tree.nodes@.len(),
        forall|j: int|
            0 <= j < r@.len() ==> {
                &&& (#[trigger] r@[j]).name@ == repo.packages@[tree.nodes@[j].pkg as int].name@
                &&& r@[j].version@ == repo.packages@[tree.nodes@[j].pkg as int].version@
                &&& r@[j].image@ == image@
            },
{
    let n = tree.nodes.len();
    let mut out: Vec<BuildJob> = Vec::new();
    let mut j: usize = 0;
    while j < n
        invariant
            0 <= j <= n,
            n == tree.nodes@.len(),
            tree_wf(repo.packages@, tree.nodes@),
            out@.len() == j,
            forall|q: int|
                0 <= q < j ==> {
                    &&& (#[trigger] out@[q]).name@ == repo.packages@[tree.nodes@[q].pkg as int].name@
                    &&& out@[q].version@ == repo.packages@[tree.nodes@[q].pkg as int].version@
                    &&& out@[q].image@ == image@
                },
        decreases n - j,
    {
        let pkg = tree.nodes[j].pkg;
        proof {
            assert(node_wf(repo.packages@, tree.nodes@, j as int));
        }
        let p = &repo.packages[pkg];
        out.push(BuildJob { name: p.name.clone(), version: p.version.clone(), image: image.clone() });
        j = j + 1;
    }
    out
}

} // verus!
