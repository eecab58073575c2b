//! The workspace dependency graph: nodes are named packages, edges point
//! from a dependency to its dependent, and a topological traversal from a
//! seed set drives increment propagation.

use vstd::prelude::*;

use crate::text::{clone_string, str_chars};
use crate::version::{opt_rank, Increment, Version};
use crate::workspace::Workspace;

verus! {

// ------------------------------------------------------------------------
// Graphs
// ------------------------------------------------------------------------

/// A graph node: the package name, its version and its declared
/// dependency names.
#[derive(Debug)]
pub struct NodeInfo {
    /// The package name.
    pub name: String,
    /// The package version, if any.
    pub version: Option<Version>,
    /// The names of the declared dependencies.
    pub dependencies: Vec<String>,
}

/// The workspace dependency graph.
#[derive(Debug)]
pub struct Dependents {
    /// The nodes, in workspace project order.
    pub nodes: Vec<NodeInfo>,
    /// The edges, each from a dependency node to a dependent node.
    pub edges: Vec<(usize, usize)>,
}

/// Whether an edge from `a` to `b` is recorded.
pub open spec fn has_edge(edges: Seq<(usize, usize)>, a: int, b: int) -> bool {
    exists|k: int| #![trigger edges[k]] 0 <= k < edges.len() && edges[k].0 == a && edges[k].1 == b
}

/// Whether every edge endpoint is a node index.
pub open spec fn graph_wf(g: Dependents) -> bool {
    forall|k: int| 0 <= k < g.edges@.len() ==> (#[trigger] g.edges@[k]).0 < g.nodes@.len()
        && g.edges@[k].1 < g.nodes@.len()
}

/// Whether `a` is the last node carrying its name.
pub open spec fn last_named(nodes: Seq<NodeInfo>, a: int) -> bool {
    forall|x: int| a < x < nodes.len() ==> (#[trigger] nodes[x].name@) != nodes[a].name@
}

/// Whether the edge from `a` to `b` is called for by dependency `d` of
/// node `b`: the name matches and `a` is the last node with that name.
pub open spec fn dep_edge(nodes: Seq<NodeInfo>, a: int, b: int, d: int) -> bool {
    &&& 0 <= a < nodes.len()
    &&& 0 <= b < nodes.len()
    &&& 0 <= d < nodes[b].dependencies.len()
    &&& nodes[a].name@ == nodes[b].dependencies[d]@
    &&& last_named(nodes, a)
}

/// Whether some dependency of `b` calls for the edge from `a`.
pub open spec fn wanted_edge(nodes: Seq<NodeInfo>, a: int, b: int) -> bool {
    exists|d: int| #[trigger] dep_edge(nodes, a, b, d)
}

/// Whether the edge list holds exactly the edges the dependency names
/// call for.
pub open spec fn edges_exact(g: Dependents) -> bool {
    forall|a: int, b: int| #![trigger has_edge(g.edges@, a, b)] has_edge(g.edges@, a, b)
        <==> wanted_edge(g.nodes@, a, b)
}

// ------------------------------------------------------------------------
// Construction
// ------------------------------------------------------------------------

/// Finds the last node whose name equals `v`, as the workspace name
/// resolution does.
fn find_node(nodes: &Vec<NodeInfo>, v: &Vec<char>) -> (r: Option<usize>)
    ensures
        match r {
            Some(a) => a < nodes@.len() && nodes@[a as int].name@ == v@ && last_named(
                nodes@,
                a as int,
            ),
            None => forall|x: int| 0 <= x < nodes@.len() ==> (#[trigger] nodes@[x].name@) != v@,
        },
{
    let n = nodes.len();
    let mut k: usize = n;
    while k > 0
        invariant
            k <= n,
            n == nodes@.len(),
            forall|x: int| k <= x < n ==> (#[trigger] nodes@[x].name@) != v@,
        decreases k,
    {
        k = k - 1;
        if crate::change::range_eq_str(v, 0, v.len(), nodes[k].name.as_str()) {
            proof {
                assert(v@.subrange(0, v@.len() as int) =~= v@);
            }
            return Some(k);
        }
        proof {
            assert(v@.subrange(0, v@.len() as int) =~= v@);
        }
    }
    None
}

/// Whether a graph node carries a named project's name, version and
/// dependency names.
pub open spec fn node_matches(nd: NodeInfo, p: crate::workspace::Project) -> bool {
    &&& p.name_view() is Some
    &&& nd.name@ == p.name_view().unwrap()
    &&& crate::workspace::opt_version_eq(nd.version, p.manifest.version)
    &&& nd.dependencies@.len() == p.manifest.dependencies@.len()
    &&& forall|d: int| 0 <= d < nd.dependencies@.len() ==> (#[trigger] nd.dependencies@[d]@)
        == p.manifest.dependencies@[d]@
}

/// The named projects among the first `i`, in order.
pub open spec fn named_prefix(ps: Seq<crate::workspace::Project>, i: int) -> Seq<
    crate::workspace::Project,
>
    decreases i when i >= 0
{
    if i <= 0 {
        Seq::empty()
    } else {
        named_prefix(ps, i - 1) + (if ps[i - 1].name_view() is Some {
            seq![ps[i - 1]]
        } else {
            Seq::empty()
        })
    }
}

impl Workspace {
    /// Builds the dependency graph of the workspace: one node for each
    /// named project, in project order, and an edge from dependency to
    /// dependent for each declared dependency that names another node.
    pub fn dependents(&self) -> (g: Dependents)
        ensures
            graph_wf(g),
            edges_exact(g),
            g.nodes@.len() == named_prefix(self.projects@, self.projects@.len() as int).len(),
            forall|k: int| 0 <= k < g.nodes@.len() ==> node_matches(
                #[trigger] g.nodes@[k],
                named_prefix(self.projects@, self.projects@.len() as int)[k],
            ),
    {
        let mut nodes: Vec<NodeInfo> = Vec::new();
        let mut i: usize = 0;
        while i < self.projects.len()
            invariant
                i <= self.projects@.len(),
                nodes@.len() == named_prefix(self.projects@, i as int).len(),
                forall|k: int| 0 <= k < nodes@.len() ==> node_matches(
                    #[trigger] nodes@[k],
                    named_prefix(self.projects@, i as int)[k],
                ),
            decreases self.projects@.len() - i,
        {
            let ghost named_before = named_prefix(self.projects@, i as int);
            let project = &self.projects[i];
            match project.manifest.name.as_ref() {
                Some(pname) => {
                    let mut deps: Vec<String> = Vec::new();
                    let mut d: usize = 0;
                    while d < project.manifest.dependencies.len()
                        invariant
                            i < self.projects@.len(),
                            project == &self.projects@[i as int],
                            d <= project.manifest.dependencies@.len(),
                            deps@.len() == d,
                            forall|d2: int| 0 <= d2 < d ==> (#[trigger] deps@[d2]@)
                                == project.manifest.dependencies@[d2]@,
                        decreases project.manifest.dependencies@.len() - d,
                    {
                        deps.push(clone_string(&project.manifest.dependencies[d]));
                        d = d + 1;
                    }
                    let version = match project.manifest.version.as_ref() {
                        Some(v) => Some(v.duplicate()),
                        None => None,
                    };
                    let ghost before = nodes@;
                    nodes.push(
                        NodeInfo { name: clone_string(pname), version, dependencies: deps },
                    );
                    proof {
                        assert(named_prefix(self.projects@, i + 1) =~= named_before + seq![
                            self.projects@[i as int],
                        ]);
                        assert(node_matches(nodes@.last(), self.projects@[i as int]));
                        assert(forall|k: int| 0 <= k < before.len() ==> nodes@[k]
                            == #[trigger] before[k]);
                    }
                },
                None => {
                    proof {
                        assert(named_prefix(self.projects@, i + 1) =~= named_before);
                    }
                },
            }
            i = i + 1;
        }
        build_graph(nodes)
    }
}

/// Builds the graph over the given nodes, adding an edge for every
/// dependency name that resolves to a node.
pub fn build_graph(nodes: Vec<NodeInfo>) -> (g: Dependents)
    ensures
        graph_wf(g),
        edges_exact(g),
        g.nodes@ == nodes@,
{
    let n = nodes.len();
    let mut edges: Vec<(usize, usize)> = Vec::new();
    let mut b: usize = 0;
    while b < n
        invariant
            b <= n,
            n == nodes@.len(),
            forall|k: int| 0 <= k < edges@.len() ==> (#[trigger] edges@[k]).0 < n
                && edges@[k].1 < n,
            forall|x: int, y: int| #![trigger has_edge(edges@, x, y)] has_edge(edges@, x, y)
                <==> (wanted_edge(nodes@, x, y) && y < b),
        decreases n - b,
    {
        let deps_len = nodes[b].dependencies.len();
        let mut d: usize = 0;
        while d < deps_len
            invariant
                b < n,
                n == nodes@.len(),
                deps_len == nodes@[b as int].dependencies@.len(),
                d <= deps_len,
                forall|k: int| 0 <= k < edges@.len() ==> (#[trigger] edges@[k]).0 < n
                    && edges@[k].1 < n,
                forall|x: int, y: int| #![trigger has_edge(edges@, x, y)] has_edge(edges@, x, y)
                    <==> (wanted_edge(nodes@, x, y) && y < b) || (exists|dd: int|
                    dd < d && #[trigger] dep_edge(nodes@, x, y, dd) && y == b),
            decreases deps_len - d,
        {
            let dep_chars = str_chars(nodes[b].dependencies[d].as_str());
            let found = find_node(&nodes, &dep_chars);
            let ghost before = edges@;
            match found {
                Some(a) => {
                    edges.push((a, b));
                    proof {
                        assert(dep_edge(nodes@, a as int, b as int, d as int));
                        assert forall|x: int, y: int| #![trigger has_edge(edges@, x, y)] has_edge(
                            edges@,
                            x,
                            y,
                        ) <==> (wanted_edge(nodes@, x, y) && y < b) || (exists|dd: int|
                            dd < d + 1 && #[trigger] dep_edge(nodes@, x, y, dd) && y == b) by {
                            if has_edge(edges@, x, y) {
                                let k = choose|k: int|
                                    #![trigger edges@[k]]
                                    0 <= k < edges@.len() && edges@[k].0 == x && edges@[k].1 == y;
                                if k < before.len() {
                                    assert(edges@[k] == before[k]);
                                    assert(has_edge(before, x, y));
                                } else {
                                    assert(edges@[k] == (a, b));
                                    assert(dep_edge(nodes@, x, y, d as int));
                                }
                            }
                            if (wanted_edge(nodes@, x, y) && y < b) || (exists|dd: int|
                                dd < d + 1 && #[trigger] dep_edge(nodes@, x, y, dd) && y == b) {
                                if wanted_edge(nodes@, x, y) && y < b {
                                    assert(has_edge(before, x, y));
                                    let k = choose|k: int|
                                        #![trigger before[k]]
                                        0 <= k < before.len() && before[k].0 == x && before[k].1
                                            == y;
                                    assert(edges@[k] == before[k]);
                                    assert(has_edge(edges@, x, y));
                                } else {
                                    let dd = choose|dd: int|
                                        dd < d + 1 && #[trigger] dep_edge(nodes@, x, y, dd) && y
                                            == b;
                                    if dd < d {
                                        assert(has_edge(before, x, y));
                                        let k = choose|k: int|
                                            #![trigger before[k]]
                                            0 <= k < before.len() && before[k].0 == x && before[k].1
                                                == y;
                                        assert(edges@[k] == before[k]);
                                        assert(has_edge(edges@, x, y));
                                    } else {
                                        // the dependency just processed: both
                                        // ends name the same last node
                                        assert(nodes@[x].name@ == nodes@[a as int].name@);
                                        assert(last_named(nodes@, x) && last_named(
                                            nodes@,
                                            a as int,
                                        ));
                                        if x < a {
                                            assert(nodes@[a as int].name@ != nodes@[x].name@);
                                        }
                                        if a < x {
                                            assert(nodes@[x].name@ != nodes@[a as int].name@);
                                        }
                                        assert(x == a as int);
                                        assert(edges@[edges@.len() - 1] == (a, b));
                                        assert(has_edge(edges@, x, y));
                                    }
                                }
                            }
                        }
                    }
                },
                None => {
                    proof {
                        assert forall|x: int, y: int| #![trigger has_edge(edges@, x, y)] has_edge(
                            edges@,
                            x,
                            y,
                        ) <==> (wanted_edge(nodes@, x, y) && y < b) || (exists|dd: int|
                            dd < d + 1 && #[trigger] dep_edge(nodes@, x, y, dd) && y == b) by {
                            if (exists|dd: int|
                                dd < d + 1 && #[trigger] dep_edge(nodes@, x, y, dd) && y == b) {
                                let dd = choose|dd: int|
                                    dd < d + 1 && #[trigger] dep_edge(nodes@, x, y, dd) && y == b;
                                if dd == d {
                                    assert(nodes@[x].name@ == nodes@[b as int].dependencies@[
                                        d as int]@);
                                    assert(false);
                                }
                            }
                        }
                    }
                },
            }
            d = d + 1;
        }
        proof {
            assert forall|x: int, y: int| #![trigger has_edge(edges@, x, y)] has_edge(edges@, x, y)
                <==> (wanted_edge(nodes@, x, y) && y < b + 1) by {
                if has_edge(edges@, x, y) {
                    if !(wanted_edge(nodes@, x, y) && y < b) {
                        let dd = choose|dd: int|
                            dd < deps_len && #[trigger] dep_edge(nodes@, x, y, dd) && y == b;
                        assert(wanted_edge(nodes@, x, y));
                    }
                }
                if wanted_edge(nodes@, x, y) && y == b {
                    let dd = choose|dd: int| #[trigger] dep_edge(nodes@, x, y, dd);
                    assert(dd < deps_len && dep_edge(nodes@, x, y, dd) && y == b);
                }
            }
        }
        b = b + 1;
    }
    Dependents { nodes, edges }
}

// ------------------------------------------------------------------------
// Reachability
// ------------------------------------------------------------------------

/// Whether node `x` can be reached from the seed set in at most `k`
/// steps along edges.
pub open spec fn reaches(edges: Seq<(usize, usize)>, seeds: Seq<usize>, x: int, k: nat) -> bool
    decreases k,
{
    seeds.contains(x as usize) || (k > 0 && exists|a: int|
        #![trigger has_edge(edges, a, x)]
        has_edge(edges, a, x) && reaches(edges, seeds, a, (k - 1) as nat))
}

/// Whether node `x` is reachable from the seed set.
pub open spec fn reachable(edges: Seq<(usize, usize)>, seeds: Seq<usize>, x: int) -> bool {
    exists|k: nat| reaches(edges, seeds, x, k)
}

/// Whether no edge enters `x`.
pub open spec fn no_incoming(edges: Seq<(usize, usize)>, x: int) -> bool {
    forall|a: int| !(#[trigger] has_edge(edges, a, x))
}

/// Whether no edge leaves `x`.
pub open spec fn no_outgoing(edges: Seq<(usize, usize)>, x: int) -> bool {
    forall|b: int| !(#[trigger] has_edge(edges, x, b))
}

impl Dependents {
    /// Returns the number of nodes.
    pub fn len(&self) -> (r: usize)
        ensures
            r == self.nodes@.len(),
    {
        self.nodes.len()
    }

    /// Returns a reference to the node at an index.
    pub fn node_at(&self, index: usize) -> (r: &NodeInfo)
        requires
            index < self.nodes@.len(),
        ensures
            *r == self.nodes@[index as int],
    {
        &self.nodes[index]
    }

    /// Returns the nodes with no incoming edges.
    pub fn sources(&self) -> (r: Vec<usize>)
        ensures
            forall|i: int| 0 <= i < r@.len() ==> (#[trigger] r@[i]) < self.nodes@.len()
                && no_incoming(self.edges@, r@[i] as int),
            forall|x: int| 0 <= x < self.nodes@.len() && #[trigger] no_incoming(self.edges@, x)
                ==> r@.contains(x as usize),
    {
        let n = self.nodes.len();
        let mut out: Vec<usize> = Vec::new();
        let mut x: usize = 0;
        while x < n
            invariant
                x <= n,
                n == self.nodes@.len(),
                forall|i: int| 0 <= i < out@.len() ==> (#[trigger] out@[i]) < n && no_incoming(
                    self.edges@,
                    out@[i] as int,
                ),
                forall|y: int| 0 <= y < x && #[trigger] no_incoming(self.edges@, y)
                    ==> out@.contains(y as usize),
            decreases n - x,
        {
            let mut found: bool = false;
            let mut k: usize = 0;
            while k < self.edges.len()
                invariant
                    x < n,
                    k <= self.edges@.len(),
                    found == (exists|kk: int|
                        #![trigger self.edges@[kk]]
                        0 <= kk < k && self.edges@[kk].1 == x),
                decreases self.edges@.len() - k,
            {
                if self.edges[k].1 == x {
                    found = true;
                }
                k = k + 1;
            }
            if !found {
                let ghost before = out@;
                out.push(x);
                proof {
                    assert(no_incoming(self.edges@, x as int)) by {
                        assert forall|a: int| !(#[trigger] has_edge(self.edges@, a, x as int)) by {
                            if has_edge(self.edges@, a, x as int) {
                                let kk = choose|kk: int|
                                    #![trigger self.edges@[kk]]
                                    0 <= kk < self.edges@.len() && self.edges@[kk].0 == a
                                        && self.edges@[kk].1 == x;
                            }
                        }
                    }
                    assert(forall|i: int| 0 <= i < before.len() ==> out@[i] == #[trigger] before[i]);
                    assert(out@[out@.len() - 1] == x);
                }
            } else {
                proof {
                    let kk = choose|kk: int|
                        #![trigger self.edges@[kk]]
                        0 <= kk < self.edges@.len() && self.edges@[kk].1 == x;
                    assert(has_edge(self.edges@, self.edges@[kk].0 as int, x as int));
                }
            }
            x = x + 1;
        }
        out
    }

    /// Returns the nodes with no outgoing edges.
    pub fn sinks(&self) -> (r: Vec<usize>)
        ensures
            forall|i: int| 0 <= i < r@.len() ==> (#[trigger] r@[i]) < self.nodes@.len()
                && no_outgoing(self.edges@, r@[i] as int),
            forall|x: int| 0 <= x < self.nodes@.len() && #[trigger] no_outgoing(self.edges@, x)
                ==> r@.contains(x as usize),
    {
        let n = self.nodes.len();
        let mut out: Vec<usize> = Vec::new();
        let mut x: usize = 0;
        while x < n
            invariant
                x <= n,
                n == self.nodes@.len(),
                forall|i: int| 0 <= i < out@.len() ==> (#[trigger] out@[i]) < n && no_outgoing(
                    self.edges@,
                    out@[i] as int,
                ),
                forall|y: int| 0 <= y < x && #[trigger] no_outgoing(self.edges@, y)
                    ==> out@.contains(y as usize),
            decreases n - x,
        {
            let mut found: bool = false;
            let mut k: usize = 0;
            while k < self.edges.len()
                invariant
                    x < n,
                    k <= self.edges@.len(),
                    found == (exists|kk: int|
                        #![trigger self.edges@[kk]]
                        0 <= kk < k && self.edges@[kk].0 == x),
                decreases self.edges@.len() - k,
            {
                if self.edges[k].0 == x {
                    found = true;
                }
                k = k + 1;
            }
            if !found {
                let ghost before = out@;
                out.push(x);
                proof {
                    assert(no_outgoing(self.edges@, x as int)) by {
                        assert forall|b: int| !(#[trigger] has_edge(self.edges@, x as int, b)) by {
                            if has_edge(self.edges@, x as int, b) {
                                let kk = choose|kk: int|
                                    #![trigger self.edges@[kk]]
                                    0 <= kk < self.edges@.len() && self.edges@[kk].0 == x
                                        && self.edges@[kk].1 == b;
                            }
                        }
                    }
                    assert(forall|i: int| 0 <= i < before.len() ==> out@[i] == #[trigger] before[i]);
                    assert(out@[out@.len() - 1] == x);
                }
            } else {
                proof {
                    let kk = choose|kk: int|
                        #![trigger self.edges@[kk]]
                        0 <= kk < self.edges@.len() && self.edges@[kk].0 == x;
                    assert(has_edge(self.edges@, x as int, self.edges@[kk].1 as int));
                }
            }
            x = x + 1;
        }
        out
    }
}

// ------------------------------------------------------------------------
// Topological traversal
// ------------------------------------------------------------------------

/// The number of false entries of a flag sequence.
pub open spec fn count_false(s: Seq<bool>) -> nat
    decreases s.len(),
{
    if s.len() == 0 {
        0
    } else {
        count_false(s.drop_last()) + (if s.last() {
            0nat
        } else {
            1nat
        })
    }
}

proof fn lemma_count_false_update(s: Seq<bool>, i: int)
    requires
        0 <= i < s.len(),
        !s[i],
    ensures
        count_false(s.update(i, true)) + 1 == count_false(s),
    decreases s.len(),
{
    let t = s.update(i, true);
    if i == s.len() - 1 {
        assert(t.drop_last() =~= s.drop_last());
    } else {
        assert(t.drop_last() =~= s.drop_last().update(i, true));
        lemma_count_false_update(s.drop_last(), i);
        assert(t.last() == s.last());
    }
}

/// Whether every member of `s` has an incoming edge from inside `s`.
pub open spec fn all_fed_within(edges: Seq<(usize, usize)>, s: Set<int>) -> bool {
    forall|x: int| s.contains(x) ==> (exists|a: int|
        #![trigger has_edge(edges, a, x)]
        s.contains(a) && has_edge(edges, a, x))
}

/// Whether the edge relation has no cycle among the first `n` nodes:
/// every nonempty set of nodes that feeds all of its members from within
/// would carry a cycle, so none exists.
pub open spec fn acyclic(edges: Seq<(usize, usize)>, n: int) -> bool {
    forall|s: Set<int>|
        (#[trigger] all_fed_within(edges, s)) && s.subset_of(
            vstd::set_lib::set_int_range(0, n),
        ) ==> s =~= Set::empty()
}

impl Dependents {
    /// Traverses the nodes reachable from the seed set in topological
    /// order: every emitted node appears after all of its reachable
    /// dependencies, each exactly once; of the ready nodes the lowest
    /// index goes first. Nodes on a cycle are never ready and are
    /// dropped rather than looped over; with an acyclic graph every
    /// reachable node is emitted.
    pub fn traverse(&self, seeds: &Vec<usize>) -> (order: Vec<usize>)
        requires
            graph_wf(*self),
            forall|i: int| 0 <= i < seeds@.len() ==> (#[trigger] seeds@[i]) < self.nodes@.len(),
        ensures
            forall|i: int, j: int| 0 <= i < j < order@.len() ==> order@[i] != order@[j],
            forall|i: int| 0 <= i < order@.len() ==> (#[trigger] order@[i]) < self.nodes@.len()
                && reachable(self.edges@, seeds@, order@[i] as int),
            forall|j: int, a: int|
                #![trigger has_edge(self.edges@, a, order@[j] as int)]
                0 <= j < order@.len() && has_edge(self.edges@, a, order@[j] as int) && reachable(
                    self.edges@,
                    seeds@,
                    a,
                ) ==> (exists|i: int| 0 <= i < j && order@[i] == a),
            acyclic(self.edges@, self.nodes@.len() as int) ==> (forall|x: int|
                0 <= x < self.nodes@.len() && reachable(self.edges@, seeds@, x) ==> order@.contains(
                    x as usize,
                )),
    {
        let n = self.nodes.len();
        // mark every node reachable from the seeds
        let mut reach: Vec<bool> = Vec::new();
        while reach.len() < n
            invariant
                reach@.len() <= n,
                forall|x: int| 0 <= x < reach@.len() ==> !(#[trigger] reach@[x]),
            decreases n - reach@.len(),
        {
            reach.push(false);
        }
        let mut stack: Vec<usize> = Vec::new();
        let mut si: usize = 0;
        while si < seeds.len()
            invariant
                si <= seeds@.len(),
                reach@.len() == n,
                n == self.nodes@.len(),
                forall|i: int| 0 <= i < seeds@.len() ==> (#[trigger] seeds@[i]) < n,
                forall|i: int| 0 <= i < si ==> reach@[(#[trigger] seeds@[i]) as int],
                forall|i: int| 0 <= i < stack@.len() ==> (#[trigger] stack@[i]) < n
                    && reach@[stack@[i] as int],
                forall|x: int| 0 <= x < n && #[trigger] reach@[x] ==> reachable(
                    self.edges@,
                    seeds@,
                    x,
                ),
                forall|x: int|
                    0 <= x < n && #[trigger] reach@[x] && !stack@.contains(x as usize) ==> (forall|
                    b: int|
                    0 <= b < n && has_edge(self.edges@, x, b) ==> reach@[b]),
            decreases seeds@.len() - si,
        {
            let x = seeds[si];
            let ghost before_stack = stack@;
            if !reach[x] {
                let ghost before = reach@;
                reach.set(x, true);
                stack.push(x);
                proof {
                    assert(reaches(self.edges@, seeds@, x as int, 0));
                    assert(reachable(self.edges@, seeds@, x as int));
                    assert(forall|y: int| 0 <= y < n && y != x ==> reach@[y] == before[y]);
                    assert forall|y: usize| before_stack.contains(y) implies stack@.contains(
                        y,
                    ) by {
                        let i = choose|i: int|
                            0 <= i < before_stack.len() && before_stack[i] == y;
                        assert(stack@[i] == y);
                    }
                    assert(stack@.contains(x)) by {
                        assert(stack@[stack@.len() - 1] == x);
                    }
                    assert forall|z: int|
                        0 <= z < n && #[trigger] reach@[z] && !stack@.contains(z as usize)
                            implies (forall|b: int|
                        0 <= b < n && has_edge(self.edges@, z, b) ==> reach@[b]) by {
                        assert(z != x);
                        assert(before[z]);
                        assert(!before_stack.contains(z as usize));
                        assert(forall|b: int| 0 <= b < n && has_edge(self.edges@, z, b)
                            ==> before[b]);
                        assert(forall|b: int| 0 <= b < n && #[trigger] before[b] ==> reach@[b]);
                    }
                }
            }
            si = si + 1;
        }
        while stack.len() > 0
            invariant
                reach@.len() == n,
                n == self.nodes@.len(),
                forall|i: int| 0 <= i < seeds@.len() ==> (#[trigger] seeds@[i]) < n
                    && reach@[seeds@[i] as int],
                forall|i: int| 0 <= i < stack@.len() ==> (#[trigger] stack@[i]) < n
                    && reach@[stack@[i] as int],
                forall|x: int| 0 <= x < n && #[trigger] reach@[x] ==> reachable(
                    self.edges@,
                    seeds@,
                    x,
                ),
                forall|x: int|
                    0 <= x < n && #[trigger] reach@[x] && !stack@.contains(x as usize) ==> (forall|
                    b: int|
                    0 <= b < n && has_edge(self.edges@, x, b) ==> reach@[b]),
            decreases count_false(reach@), stack@.len(),
        {
            let ghost old_stack = stack@;
            let a = stack.pop().unwrap();
            proof {
                assert(a == old_stack.last());
                assert(stack@ =~= old_stack.drop_last());
                assert forall|x: int|
                    0 <= x < n && #[trigger] reach@[x] && x != a && !stack@.contains(x as usize)
                        implies (forall|b: int|
                    0 <= b < n && has_edge(self.edges@, x, b) ==> reach@[b]) by {
                    if old_stack.contains(x as usize) {
                        let i = choose|i: int|
                            0 <= i < old_stack.len() && old_stack[i] == x as usize;
                        if i < old_stack.len() - 1 {
                            assert(stack@[i] == x as usize);
                            assert(false);
                        } else {
                            assert(x == a);
                        }
                    }
                }
            }
            let mut k: usize = 0;
            let ghost count0 = count_false(reach@);
            let mut grew: bool = false;
            while k < self.edges.len()
                invariant
                    reach@.len() == n,
                    n == self.nodes@.len(),
                    a < n,
                    k <= self.edges@.len(),
                    reach@[a as int],
                    forall|i: int| 0 <= i < seeds@.len() ==> (#[trigger] seeds@[i]) < n
                        && reach@[seeds@[i] as int],
                    grew ==> count_false(reach@) < count0,
                    !grew ==> count_false(reach@) == count0 && stack@ == old_stack.drop_last(),
                    forall|i: int| 0 <= i < stack@.len() ==> (#[trigger] stack@[i]) < n
                        && reach@[stack@[i] as int],
                    forall|x: int| 0 <= x < n && #[trigger] reach@[x] ==> reachable(
                        self.edges@,
                        seeds@,
                        x,
                    ),
                    forall|x: int|
                        0 <= x < n && #[trigger] reach@[x] && x != a && !stack@.contains(x as usize)
                            ==> (forall|b: int|
                        0 <= b < n && has_edge(self.edges@, x, b) ==> reach@[b]),
                    forall|kk: int|
                        0 <= kk < k && (#[trigger] self.edges@[kk]).0 == a ==> self.edges@[kk].1
                            >= n || reach@[self.edges@[kk].1 as int],
                decreases self.edges@.len() - k,
            {
                let (ea, eb) = self.edges[k];
                if ea == a && eb < n && !reach[eb] {
                    let ghost before = reach@;
                    let ghost before_stack = stack@;
                    reach.set(eb, true);
                    stack.push(eb);
                    proof {
                        assert forall|y: usize| before_stack.contains(y) implies stack@.contains(
                            y,
                        ) by {
                            let i = choose|i: int|
                                0 <= i < before_stack.len() && before_stack[i] == y;
                            assert(stack@[i] == y);
                        }
                        assert(stack@.contains(eb)) by {
                            assert(stack@[stack@.len() - 1] == eb);
                        }
                        lemma_count_false_update(before, eb as int);
                        assert(reachable(self.edges@, seeds@, a as int));
                        let kr = choose|kr: nat| reaches(self.edges@, seeds@, a as int, kr);
                        assert(has_edge(self.edges@, a as int, eb as int)) by {
                            assert(self.edges@[k as int] == (a, eb));
                        }
                        assert(reaches(self.edges@, seeds@, eb as int, kr + 1));
                        assert(reachable(self.edges@, seeds@, eb as int));
                        assert(forall|y: int| 0 <= y < n && y != eb ==> reach@[y] == before[y]);
                    }
                    grew = true;
                }
                k = k + 1;
            }
            proof {
                assert forall|x: int|
                    0 <= x < n && #[trigger] reach@[x] && !stack@.contains(x as usize)
                        implies (forall|b: int|
                    0 <= b < n && has_edge(self.edges@, x, b) ==> reach@[b]) by {
                    if x == a {
                        assert forall|b: int| 0 <= b < n && has_edge(self.edges@, x, b)
                            implies reach@[b] by {
                            let kk = choose|kk: int|
                                #![trigger self.edges@[kk]]
                                0 <= kk < self.edges@.len() && self.edges@[kk].0 == x
                                    && self.edges@[kk].1 == b;
                        }
                    }
                }
            }
        }
        // emit ready nodes in index order until none is ready
        let mut emitted: Vec<bool> = Vec::new();
        while emitted.len() < n
            invariant
                emitted@.len() <= n,
                forall|x: int| 0 <= x < emitted@.len() ==> !(#[trigger] emitted@[x]),
            decreases n - emitted@.len(),
        {
            emitted.push(false);
        }
        let mut order: Vec<usize> = Vec::new();
        loop
            invariant_except_break
                reach@.len() == n,
                emitted@.len() == n,
                n == self.nodes@.len(),
                forall|i: int| 0 <= i < seeds@.len() ==> (#[trigger] seeds@[i]) < n
                    && reach@[seeds@[i] as int],
                forall|x: int| 0 <= x < n && #[trigger] reach@[x] ==> reachable(
                    self.edges@,
                    seeds@,
                    x,
                ),
                forall|x: int|
                    0 <= x < n && #[trigger] reach@[x] ==> (forall|b: int|
                    0 <= b < n && has_edge(self.edges@, x, b) ==> reach@[b]),
                forall|x: int| 0 <= x < n ==> ((#[trigger] emitted@[x]) <==> order@.contains(
                    x as usize,
                )),
                forall|i: int, j: int| 0 <= i < j < order@.len() ==> order@[i] != order@[j],
                forall|i: int| 0 <= i < order@.len() ==> (#[trigger] order@[i]) < n
                    && reach@[order@[i] as int],
                forall|j: int, a: int|
                    #![trigger has_edge(self.edges@, a, order@[j] as int)]
                    0 <= j < order@.len() && has_edge(self.edges@, a, order@[j] as int) && 0 <= a
                        < n && reach@[a] ==> (exists|i: int| 0 <= i < j && order@[i] == a),
            ensures
                reach@.len() == n,
                emitted@.len() == n,
                n == self.nodes@.len(),
                forall|i: int| 0 <= i < seeds@.len() ==> (#[trigger] seeds@[i]) < n
                    && reach@[seeds@[i] as int],
                forall|x: int| 0 <= x < n && #[trigger] reach@[x] ==> reachable(
                    self.edges@,
                    seeds@,
                    x,
                ),
                forall|x: int| 0 <= x < n ==> ((#[trigger] emitted@[x]) <==> order@.contains(
                    x as usize,
                )),
                forall|i: int, j: int| 0 <= i < j < order@.len() ==> order@[i] != order@[j],
                forall|i: int| 0 <= i < order@.len() ==> (#[trigger] order@[i]) < n
                    && reach@[order@[i] as int],
                forall|j: int, a: int|
                    #![trigger has_edge(self.edges@, a, order@[j] as int)]
                    0 <= j < order@.len() && has_edge(self.edges@, a, order@[j] as int) && 0 <= a
                        < n && reach@[a] ==> (exists|i: int| 0 <= i < j && order@[i] == a),
                forall|x: int|
                    0 <= x < n && #[trigger] reach@[x] && !emitted@[x] ==> (exists|a: int|
                    #![trigger has_edge(self.edges@, a, x)]
                    0 <= a < n && has_edge(self.edges@, a, x) && reach@[a] && !emitted@[a]),
            decreases count_false(emitted@),
        {
            let mut pick: Option<usize> = None;
            let mut x: usize = 0;
            while x < n && pick.is_none()
                invariant
                    x <= n,
                    reach@.len() == n,
                    emitted@.len() == n,
                    match pick {
                        Some(px) => px < n && reach@[px as int] && !emitted@[px as int] && (forall|
                            a: int,
                        |
                            0 <= a < n && has_edge(self.edges@, a, px as int) && reach@[a]
                                ==> emitted@[a]),
                        None => forall|y: int|
                            0 <= y < x && #[trigger] reach@[y] && !emitted@[y] ==> (exists|a: int|
                                #![trigger has_edge(self.edges@, a, y)]
                                0 <= a < n && has_edge(self.edges@, a, y) && reach@[a]
                                    && !emitted@[a]),
                    },
                decreases n - x,
            {
                if reach[x] && !emitted[x] {
                    // check that every reachable dependency is emitted
                    let mut ok: bool = true;
                    let mut k: usize = 0;
                    while k < self.edges.len()
                        invariant
                            x < n,
                            k <= self.edges@.len(),
                            reach@.len() == n,
                            emitted@.len() == n,
                            ok ==> (forall|kk: int|
                                0 <= kk < k && (#[trigger] self.edges@[kk]).1 == x
                                    && self.edges@[kk].0 < n && reach@[self.edges@[kk].0 as int]
                                    ==> emitted@[self.edges@[kk].0 as int]),
                            !ok ==> (exists|a: int|
                                #![trigger has_edge(self.edges@, a, x as int)]
                                0 <= a < n && has_edge(self.edges@, a, x as int) && reach@[a]
                                    && !emitted@[a]),
                        decreases self.edges@.len() - k,
                    {
                        let (ea, eb) = self.edges[k];
                        if eb == x && ea < n {
                            if reach[ea] && !emitted[ea] {
                                proof {
                                    assert(self.edges@[k as int] == (ea, eb));
                                    assert(has_edge(self.edges@, ea as int, x as int));
                                }
                                ok = false;
                            }
                        }
                        k = k + 1;
                    }
                    if ok {
                        proof {
                            assert forall|a: int|
                                0 <= a < n && has_edge(self.edges@, a, x as int) && reach@[a]
                                    implies emitted@[a] by {
                                let kk = choose|kk: int|
                                    #![trigger self.edges@[kk]]
                                    0 <= kk < self.edges@.len() && self.edges@[kk].0 == a
                                        && self.edges@[kk].1 == x;
                            }
                        }
                        pick = Some(x);
                    }
                }
                x = x + 1;
            }
            match pick {
                Some(px) => {
                    let ghost before_e = emitted@;
                    let ghost before_o = order@;
                    emitted.set(px, true);
                    order.push(px);
                    proof {
                        lemma_count_false_update(before_e, px as int);
                        assert(forall|y: int| 0 <= y < n && y != px ==> emitted@[y] == before_e[y]);
                        assert(forall|i: int| 0 <= i < before_o.len() ==> order@[i]
                            == #[trigger] before_o[i]);
                        assert(order@[order@.len() - 1] == px);
                        assert forall|y: int| 0 <= y < n implies ((#[trigger] emitted@[y])
                            <==> order@.contains(y as usize)) by {
                            if emitted@[y] {
                                if y == px {
                                    assert(order@[order@.len() - 1] == y as usize);
                                } else {
                                    assert(before_e[y]);
                                    let i = choose|i: int|
                                        0 <= i < before_o.len() && before_o[i] == y as usize;
                                    assert(order@[i] == y as usize);
                                }
                            }
                            if order@.contains(y as usize) {
                                let i = choose|i: int|
                                    0 <= i < order@.len() && order@[i] == y as usize;
                                if i < order@.len() - 1 {
                                    assert(before_o[i] == y as usize);
                                }
                            }
                        }
                    }
                },
                None => {
                    break;
                },
            }
        }
        proof {
            assert forall|j: int, a: int|
                #![trigger has_edge(self.edges@, a, order@[j] as int)]
                0 <= j < order@.len() && has_edge(self.edges@, a, order@[j] as int) && reachable(
                    self.edges@,
                    seeds@,
                    a,
                ) implies (exists|i: int| 0 <= i < j && order@[i] == a) by {
                assert(0 <= a < n) by {
                    let kk = choose|kk: int|
                        #![trigger self.edges@[kk]]
                        0 <= kk < self.edges@.len() && self.edges@[kk].0 == a && self.edges@[kk].1
                            == order@[j] as int;
                }
                let k = choose|k: nat| reaches(self.edges@, seeds@, a, k);
                lemma_reaches_marked(self.edges@, seeds@, reach@, n as int, a, k);
            }
            if acyclic(self.edges@, n as int) {
                let rest = Set::new(
                    |x: int| 0 <= x < n && reach@[x] && !order@.contains(x as usize),
                );
                assert(all_fed_within(self.edges@, rest)) by {
                    assert forall|x: int| rest.contains(x) implies (exists|a: int|
                        #![trigger has_edge(self.edges@, a, x)]
                        rest.contains(a) && has_edge(self.edges@, a, x)) by {
                        assert(reach@[x] && !emitted@[x]);
                        let a = choose|a: int|
                            #![trigger has_edge(self.edges@, a, x)]
                            0 <= a < n && has_edge(self.edges@, a, x) && reach@[a] && !emitted@[a];
                        assert(rest.contains(a));
                    }
                }
                assert(rest.subset_of(vstd::set_lib::set_int_range(0, n as int)));
                assert(rest =~= Set::empty());
                assert forall|x: int|
                    0 <= x < n && reachable(self.edges@, seeds@, x) implies order@.contains(
                    x as usize,
                ) by {
                    let k = choose|k: nat| reaches(self.edges@, seeds@, x, k);
                    lemma_reaches_marked(self.edges@, seeds@, reach@, n as int, x, k);
                    assert(!rest.contains(x));
                }
            }
        }
        order
    }
}

/// In a closed marking that holds the seeds, every node reached in `k`
/// steps is marked.
proof fn lemma_reaches_marked(
    edges: Seq<(usize, usize)>,
    seeds: Seq<usize>,
    reach: Seq<bool>,
    n: int,
    x: int,
    k: nat,
)
    requires
        reach.len() == n,
        n <= usize::MAX,
        reaches(edges, seeds, x, k),
        0 <= x < n,
        forall|i: int| 0 <= i < seeds.len() ==> (#[trigger] seeds[i]) < n && reach[seeds[i] as int],
        forall|y: int|
            0 <= y < n && #[trigger] reach[y] ==> (forall|b: int|
                0 <= b < n && has_edge(edges, y, b) ==> reach[b]),
        forall|k2: int| 0 <= k2 < edges.len() ==> (#[trigger] edges[k2]).0 < n && edges[k2].1 < n,
    ensures
        reach[x],
    decreases k,
{
    if seeds.contains(x as usize) {
        let i = choose|i: int| 0 <= i < seeds.len() && seeds[i] == x as usize;
        assert(seeds[i] == x as usize);
        assert(reach[seeds[i] as int]);
        assert(reach[x]);
    } else {
        let a = choose|a: int|
            #![trigger has_edge(edges, a, x)]
            has_edge(edges, a, x) && reaches(edges, seeds, a, (k - 1) as nat);
        assert(0 <= a < n) by {
            let kk = choose|kk: int|
                #![trigger edges[kk]]
                0 <= kk < edges.len() && edges[kk].0 == a && edges[kk].1 == x;
        }
        lemma_reaches_marked(edges, seeds, reach, n, a, (k - 1) as nat);
    }
}


// ------------------------------------------------------------------------
// Increment propagation
// ------------------------------------------------------------------------

/// A version increment suggestion for one node: the package, its current
/// version, and the increments to choose from.
#[derive(Debug)]
pub struct Suggestion {
    /// The node index.
    pub node: usize,
    /// The package name.
    pub name: String,
    /// The package version, if any.
    pub version: Option<Version>,
    /// The increments to choose from, in ascending order: the node's own
    /// slot and every strictly greater slot of a dependency.
    pub increments: Vec<Option<Increment>>,
}

/// Whether `o` is an option offered for `node`: its own slot, or the
/// slot of a dependency that exceeds it.
pub open spec fn is_option(
    edges: Seq<(usize, usize)>,
    incs: Seq<Option<Increment>>,
    node: int,
    o: Option<Increment>,
) -> bool {
    o == incs[node] || (exists|a: int|
        #![trigger has_edge(edges, a, node)]
        0 <= a < incs.len() && has_edge(edges, a, node) && incs[a] == o && opt_rank(o) > opt_rank(
            incs[node],
        ))
}

/// Whether an option list is strictly ascending by rank.
pub open spec fn options_sorted(s: Seq<Option<Increment>>) -> bool {
    forall|i: int, j: int| 0 <= i < j < s.len() ==> opt_rank(#[trigger] s[i]) < opt_rank(
        #[trigger] s[j],
    )
}

/// Inserts an option in rank order, keeping the list duplicate-free.
fn insert_option(list: &mut Vec<Option<Increment>>, x: Option<Increment>)
    requires
        options_sorted(old(list)@),
    ensures
        options_sorted(final(list)@),
        forall|o: Option<Increment>| final(list)@.contains(o) <==> (old(list)@.contains(o) || o
            == x),
{
    let xr: u8 = match x {
        None => 0,
        Some(i) => i.rank(),
    };
    let mut i: usize = 0;
    let n = list.len();
    while i < n
        invariant
            i <= n,
            n == list@.len(),
            *list == *old(list),
            options_sorted(list@),
            xr as int == opt_rank(x),
            forall|j: int| 0 <= j < i ==> opt_rank(#[trigger] list@[j]) < xr as int,
        decreases n - i,
    {
        let lr: u8 = match list[i] {
            None => 0,
            Some(inc) => inc.rank(),
        };
        if lr == xr {
            proof {
                crate::version::lemma_opt_rank_injective(list@[i as int], x);
                assert(list@[i as int] == x);
                assert(list@.contains(x)) by {
                    assert(list@[i as int] == x);
                }
            }
            return;
        }
        if lr > xr {
            let ghost before = list@;
            list.insert(i, x);
            proof {
                before.insert_ensures(i as int, x);
                assert forall|a: int, b: int| 0 <= a < b < list@.len() implies opt_rank(
                    #[trigger] list@[a],
                ) < opt_rank(#[trigger] list@[b]) by {
                    if b == i {
                        assert(list@[a] == before[a]);
                    } else if a == i && b > i {
                        assert(list@[b] == before[b - 1]);
                    } else if a < i && b > i {
                        assert(list@[a] == before[a] && list@[b] == before[b - 1]);
                        if b - 1 > i {
                            assert(opt_rank(before[a]) < opt_rank(before[b - 1]));
                        }
                    } else if a > i {
                        assert(list@[a] == before[a - 1] && list@[b] == before[b - 1]);
                    }
                }
                assert forall|o: Option<Increment>| list@.contains(o) <==> (before.contains(o) || o
                    == x) by {
                    if list@.contains(o) {
                        let j = choose|j: int| 0 <= j < list@.len() && list@[j] == o;
                        if j < i {
                            assert(before[j] == o);
                        } else if j > i {
                            assert(before[j - 1] == o);
                        }
                    }
                    if before.contains(o) {
                        let j = choose|j: int| 0 <= j < before.len() && before[j] == o;
                        if j < i {
                            assert(list@[j] == o);
                        } else {
                            assert(list@[j + 1] == o);
                        }
                    }
                    if o == x {
                        assert(list@[i as int] == o);
                    }
                }
            }
            return;
        }
        i = i + 1;
    }
    let ghost before = list@;
    list.push(x);
    proof {
        assert(forall|j: int| 0 <= j < before.len() ==> list@[j] == #[trigger] before[j]);
        assert(list@[list@.len() - 1] == x);
        assert forall|o: Option<Increment>| list@.contains(o) <==> (before.contains(o) || o
            == x) by {
            if list@.contains(o) {
                let j = choose|j: int| 0 <= j < list@.len() && list@[j] == o;
                if j < before.len() {
                    assert(before[j] == o);
                }
            }
            if before.contains(o) {
                let j = choose|j: int| 0 <= j < before.len() && before[j] == o;
                assert(list@[j] == o);
            }
        }
    }
}

/// Whether node `x` can be reached from a set slot in at most `k` steps.
pub open spec fn src_reaches(
    edges: Seq<(usize, usize)>,
    incs: Seq<Option<Increment>>,
    x: int,
    k: nat,
) -> bool
    decreases k,
{
    (0 <= x < incs.len() && incs[x] is Some) || (k > 0 && exists|a: int|
        #![trigger has_edge(edges, a, x)]
        has_edge(edges, a, x) && src_reaches(edges, incs, a, (k - 1) as nat))
}

/// Whether node `x` is reachable from a node whose slot is set.
pub open spec fn inc_reachable(edges: Seq<(usize, usize)>, incs: Seq<Option<Increment>>, x: int) -> bool {
    exists|k: nat| src_reaches(edges, incs, x, k)
}

/// The greater of two ranks.
pub open spec fn max2(a: int, b: int) -> int {
    if a >= b {
        a
    } else {
        b
    }
}

/// The greatest slot rank among the dependencies of `x`, over the first
/// `k` edges; zero when there is none.
pub open spec fn best_dep(
    edges: Seq<(usize, usize)>,
    incs: Seq<Option<Increment>>,
    x: int,
    k: int,
) -> int
    decreases k when k >= 0
{
    if k <= 0 {
        0
    } else {
        max2(
            best_dep(edges, incs, x, k - 1),
            if edges[k - 1].1 == x {
                opt_rank(incs[edges[k - 1].0 as int])
            } else {
                0
            },
        )
    }
}

/// Reachability along edges from the seed list and from the set slots
/// agree when the seeds are exactly the set slots.
proof fn lemma_reach_to_src(
    edges: Seq<(usize, usize)>,
    seeds: Seq<usize>,
    incs: Seq<Option<Increment>>,
    x: int,
    k: nat,
)
    requires
        reaches(edges, seeds, x, k),
        0 <= x <= usize::MAX,
        forall|i: int| 0 <= i < seeds.len() ==> (#[trigger] seeds[i]) < incs.len() && incs[
            seeds[i] as int] is Some,
    ensures
        src_reaches(edges, incs, x, k),
    decreases k,
{
    if seeds.contains(x as usize) {
        let i = choose|i: int| 0 <= i < seeds.len() && seeds[i] == x as usize;
        assert(incs[seeds[i] as int] is Some);
        assert(seeds[i] as int == x);
    } else {
        let a = choose|a: int|
            #![trigger has_edge(edges, a, x)]
            has_edge(edges, a, x) && reaches(edges, seeds, a, (k - 1) as nat);
        assert(0 <= a <= usize::MAX) by {
            let kk = choose|kk: int|
                #![trigger edges[kk]]
                0 <= kk < edges.len() && edges[kk].0 == a && edges[kk].1 == x;
        }
        lemma_reach_to_src(edges, seeds, incs, a, (k - 1) as nat);
    }
}

proof fn lemma_src_to_reach(
    edges: Seq<(usize, usize)>,
    seeds: Seq<usize>,
    incs: Seq<Option<Increment>>,
    x: int,
    k: nat,
)
    requires
        src_reaches(edges, incs, x, k),
        incs.len() <= usize::MAX,
        forall|y: int| 0 <= y < incs.len() && incs[y] is Some ==> seeds.contains(y as usize),
    ensures
        reaches(edges, seeds, x, k),
    decreases k,
{
    if 0 <= x < incs.len() && incs[x] is Some {
        assert(seeds.contains(x as usize));
    } else {
        let a = choose|a: int|
            #![trigger has_edge(edges, a, x)]
            has_edge(edges, a, x) && src_reaches(edges, incs, a, (k - 1) as nat);
        lemma_src_to_reach(edges, seeds, incs, a, (k - 1) as nat);
    }
}

/// The best dependency rank is never negative.
proof fn lemma_best_nonneg(edges: Seq<(usize, usize)>, incs: Seq<Option<Increment>>, x: int, k: int)
    requires
        0 <= k <= edges.len(),
    ensures
        best_dep(edges, incs, x, k) >= 0,
    decreases k,
{
    if k > 0 {
        lemma_best_nonneg(edges, incs, x, k - 1);
    }
}

/// The best dependency rank ignores slots of nodes with no edge into `x`.
proof fn lemma_best_unchanged(
    edges: Seq<(usize, usize)>,
    i1: Seq<Option<Increment>>,
    i2: Seq<Option<Increment>>,
    x: int,
    k: int,
)
    requires
        0 <= k <= edges.len(),
        forall|e: int| 0 <= e < k && (#[trigger] edges[e]).1 == x ==> i1[edges[e].0 as int]
            == i2[edges[e].0 as int],
    ensures
        best_dep(edges, i1, x, k) == best_dep(edges, i2, x, k),
    decreases k,
{
    if k > 0 {
        lemma_best_unchanged(edges, i1, i2, x, k - 1);
    }
}

/// Raising one slot keeps the best dependency rank between its old value
/// and the raised rank.
proof fn lemma_best_update(
    edges: Seq<(usize, usize)>,
    incs: Seq<Option<Increment>>,
    x: int,
    n0: int,
    val: Option<Increment>,
    k: int,
)
    requires
        0 <= k <= edges.len(),
        0 <= n0 < incs.len(),
        forall|e: int| 0 <= e < k ==> (#[trigger] edges[e]).0 < incs.len(),
        opt_rank(val) >= opt_rank(incs[n0]),
    ensures
        best_dep(edges, incs.update(n0, val), x, k) >= best_dep(edges, incs, x, k),
        best_dep(edges, incs.update(n0, val), x, k) <= max2(
            best_dep(edges, incs, x, k),
            opt_rank(val),
        ),
    decreases k,
{
    if k > 0 {
        lemma_best_update(edges, incs, x, n0, val, k - 1);
    }
}

impl Dependents {
    /// Builds the suggestion for one node: its own increment slot and
    /// every strictly greater slot of a dependency, in ascending order.
    pub fn suggestion_for(&self, increments: &Vec<Option<Increment>>, node: usize) -> (r:
        Suggestion)
        requires
            graph_wf(*self),
            node < self.nodes@.len(),
            increments@.len() == self.nodes@.len(),
        ensures
            r.node == node,
            r.name@ == self.nodes@[node as int].name@,
            crate::workspace::opt_version_eq(r.version, self.nodes@[node as int].version),
            options_sorted(r.increments@),
            forall|o: Option<Increment>| r.increments@.contains(o) <==> is_option(
                self.edges@,
                increments@,
                node as int,
                o,
            ),
    {
        let mut opts: Vec<Option<Increment>> = Vec::new();
        opts.push(increments[node]);
        proof {
            assert(opts@.contains(increments@[node as int])) by {
                assert(opts@[0] == increments@[node as int]);
            }
            assert(forall|o: Option<Increment>| #[trigger] opts@.contains(o) ==> o == opts@[0]);
        }
        let own_rank: u8 = match increments[node] {
            None => 0,
            Some(i) => i.rank(),
        };
        let mut k: usize = 0;
        while k < self.edges.len()
            invariant
                graph_wf(*self),
                node < self.nodes@.len(),
                increments@.len() == self.nodes@.len(),
                k <= self.edges@.len(),
                own_rank as int == opt_rank(increments@[node as int]),
                options_sorted(opts@),
                forall|o: Option<Increment>| opts@.contains(o) <==> (o == increments@[node as int]
                    || (exists|kk: int|
                    #![trigger self.edges@[kk]]
                    0 <= kk < k && self.edges@[kk].1 == node && increments@[self.edges@[kk].0 as int]
                        == o && opt_rank(o) > opt_rank(increments@[node as int]))),
            decreases self.edges@.len() - k,
        {
            let (ea, eb) = self.edges[k];
            let ghost before = opts@;
            if eb == node {
                let cand = increments[ea];
                let cr: u8 = match cand {
                    None => 0,
                    Some(i) => i.rank(),
                };
                if cr > own_rank {
                    insert_option(&mut opts, cand);
                    proof {
                        assert(self.edges@[k as int] == (ea, eb));
                    }
                }
            }
            proof {
                assert forall|o: Option<Increment>| opts@.contains(o) <==> (o == increments@[
                    node as int] || (exists|kk: int|
                    #![trigger self.edges@[kk]]
                    0 <= kk < k + 1 && self.edges@[kk].1 == node && increments@[self.edges@[kk].0
                        as int] == o && opt_rank(o) > opt_rank(increments@[node as int]))) by {
                    if opts@.contains(o) && !before.contains(o) {
                        assert(self.edges@[k as int].1 == node && increments@[self.edges@[
                            k as int].0 as int] == o);
                    }
                    if !opts@.contains(o) && (exists|kk: int|
                        #![trigger self.edges@[kk]]
                        0 <= kk < k + 1 && self.edges@[kk].1 == node && increments@[self.edges@[
                            kk].0 as int] == o && opt_rank(o) > opt_rank(
                        increments@[node as int],
                    )) {
                        let kk = choose|kk: int|
                            #![trigger self.edges@[kk]]
                            0 <= kk < k + 1 && self.edges@[kk].1 == node && increments@[self.edges@[
                                kk].0 as int] == o && opt_rank(o) > opt_rank(
                                increments@[node as int],
                            );
                        assert(before.contains(o) || o == increments@[node as int] || kk == k);
                        assert(forall|o2: Option<Increment>| before.contains(o2)
                            ==> opts@.contains(o2));
                        assert(false);
                    }
                }
            }
            k = k + 1;
        }
        proof {
            assert forall|o: Option<Increment>| opts@.contains(o) <==> is_option(
                self.edges@,
                increments@,
                node as int,
                o,
            ) by {
                if opts@.contains(o) && o != increments@[node as int] {
                    let kk = choose|kk: int|
                        #![trigger self.edges@[kk]]
                        0 <= kk < self.edges@.len() && self.edges@[kk].1 == node && increments@[
                            self.edges@[kk].0 as int] == o && opt_rank(o) > opt_rank(
                            increments@[node as int],
                        );
                    let a = self.edges@[kk].0;
                    assert(has_edge(self.edges@, a as int, node as int));
                    assert(0 <= (a as int) && (a as int) < increments@.len());
                }
                if is_option(self.edges@, increments@, node as int, o) && o != increments@[
                    node as int] {
                    let a = choose|a: int|
                        #![trigger has_edge(self.edges@, a, node as int)]
                        0 <= a < increments@.len() && has_edge(self.edges@, a, node as int)
                            && increments@[a] == o && opt_rank(o) > opt_rank(
                            increments@[node as int],
                        );
                    let kk = choose|kk: int|
                        #![trigger self.edges@[kk]]
                        0 <= kk < self.edges@.len() && self.edges@[kk].0 == a && self.edges@[kk].1
                            == node;
                    assert(increments@[self.edges@[kk].0 as int] == o);
                }
            }
        }
        let name = clone_string(&self.nodes[node].name);
        let version = match self.nodes[node].version.as_ref() {
            Some(v) => Some(v.duplicate()),
            None => None,
        };
        Suggestion { node, name, version, increments: opts }
    }

    /// Returns the indices whose increment slot is set: the seeds of the
    /// propagation traversal.
    pub fn seeds_of(&self, increments: &Vec<Option<Increment>>) -> (r: Vec<usize>)
        requires
            increments@.len() == self.nodes@.len(),
        ensures
            forall|i: int| 0 <= i < r@.len() ==> (#[trigger] r@[i]) < self.nodes@.len()
                && increments@[r@[i] as int] is Some,
            forall|x: int| 0 <= x < increments@.len() && increments@[x] is Some ==> r@.contains(
                x as usize,
            ),
    {
        let mut out: Vec<usize> = Vec::new();
        let mut x: usize = 0;
        while x < increments.len()
            invariant
                x <= increments@.len(),
                increments@.len() == self.nodes@.len(),
                forall|i: int| 0 <= i < out@.len() ==> (#[trigger] out@[i]) < self.nodes@.len()
                    && increments@[out@[i] as int] is Some,
                forall|y: int| 0 <= y < x && increments@[y] is Some ==> out@.contains(y as usize),
            decreases increments@.len() - x,
        {
            if increments[x].is_some() {
                let ghost before = out@;
                out.push(x);
                proof {
                    assert(forall|i: int| 0 <= i < before.len() ==> out@[i] == #[trigger] before[i]);
                    assert(out@[out@.len() - 1] == x);
                    assert forall|y: int| 0 <= y < x + 1 && increments@[y] is Some
                        implies out@.contains(y as usize) by {
                        if y < x {
                            let i = choose|i: int| 0 <= i < before.len() && before[i] == y as usize;
                            assert(out@[i] == y as usize);
                        }
                    }
                }
            }
            x = x + 1;
        }
        out
    }

    /// Propagates increments by always accepting the highest suggestion:
    /// visits the reachable nodes in topological order and lifts each
    /// node's slot to the maximum of its own and its dependencies' slots.
    /// Afterwards no dependency carries a higher slot than its dependent,
    /// provided the graph is acyclic.
    pub fn bump_max(&self, increments: &mut Vec<Option<Increment>>)
        requires
            graph_wf(*self),
            old(increments)@.len() == self.nodes@.len(),
            acyclic(self.edges@, self.nodes@.len() as int),
        ensures
            final(increments)@.len() == old(increments)@.len(),
            forall|x: int| 0 <= x < old(increments)@.len() ==> opt_rank(
                #[trigger] final(increments)@[x],
            ) >= opt_rank(old(increments)@[x]),
            forall|a: int, b: int|
                #![trigger has_edge(self.edges@, a, b)]
                0 <= a < old(increments)@.len() && 0 <= b < old(increments)@.len() && has_edge(
                    self.edges@,
                    a,
                    b,
                ) ==> opt_rank(final(increments)@[b]) >= opt_rank(final(increments)@[a]),
            forall|x: int|
                0 <= x < old(increments)@.len() && !inc_reachable(self.edges@, old(increments)@, x)
                    ==> final(increments)@[x] == #[trigger] old(increments)@[x],
            forall|x: int|
                0 <= x < old(increments)@.len() && #[trigger] inc_reachable(
                    self.edges@,
                    old(increments)@,
                    x,
                ) ==> opt_rank(final(increments)@[x]) == max2(
                    opt_rank(old(increments)@[x]),
                    best_dep(self.edges@, final(increments)@, x, self.edges@.len() as int),
                ),
    {
        let n = self.nodes.len();
        let seeds = self.seeds_of(increments);
        let order = self.traverse(&seeds);
        let ghost order0 = order@;
        let mut idx: usize = 0;
        while idx < order.len()
            invariant
                graph_wf(*self),
                n == self.nodes@.len(),
                increments@.len() == n,
                old(increments)@.len() == n,
                order@ == order0,
                idx <= order0.len(),
                forall|i: int, j: int| 0 <= i < j < order0.len() ==> order0[i] != order0[j],
                forall|i: int| 0 <= i < order0.len() ==> (#[trigger] order0[i]) < n && reachable(
                    self.edges@,
                    seeds@,
                    order0[i] as int,
                ),
                // only visited nodes were written
                forall|x: int|
                    0 <= x < n && (forall|i: int| 0 <= i < idx ==> #[trigger] order0[i] != x)
                        ==> increments@[x] == old(increments)@[x],
                // slots only grow
                forall|x: int| 0 <= x < n ==> opt_rank(#[trigger] increments@[x]) >= opt_rank(
                    old(increments)@[x],
                ),
                // the visited prefix already satisfies the propagation law
                forall|j: int, a: int|
                    #![trigger has_edge(self.edges@, a, order0[j] as int)]
                    0 <= j < idx && 0 <= a < n && has_edge(self.edges@, a, order0[j] as int)
                        ==> opt_rank(increments@[order0[j] as int]) >= opt_rank(increments@[a]),
                // every node a seed reaches was emitted
                forall|x: int| 0 <= x < n && reachable(self.edges@, seeds@, x)
                    ==> order0.contains(x as usize),
                forall|i: int| 0 <= i < seeds@.len() ==> (#[trigger] seeds@[i]) < n && old(
                    increments,
                )@[seeds@[i] as int] is Some,
                forall|x: int| 0 <= x < n && old(increments)@[x] is Some ==> seeds@.contains(
                    x as usize,
                ),
                // each visited node's slot is the maximum of its old slot
                // and its dependencies' current slots
                forall|j: int| 0 <= j < idx ==> opt_rank(
                    increments@[(#[trigger] order0[j]) as int],
                ) == max2(
                    opt_rank(old(increments)@[order0[j] as int]),
                    best_dep(self.edges@, increments@, order0[j] as int, self.edges@.len() as int),
                ),
                forall|j: int, a: int|
                    #![trigger has_edge(self.edges@, a, order0[j] as int)]
                    0 <= j < order0.len() && has_edge(self.edges@, a, order0[j] as int)
                        && reachable(self.edges@, seeds@, a) ==> (exists|i: int|
                        0 <= i < j && order0[i] == a),
            decreases order0.len() - idx,
        {
            let node = order[idx];
            let mut acc: Option<Increment> = increments[node];
            proof {
                assert(opt_rank(acc) == max2(
                    opt_rank(increments@[node as int]),
                    best_dep(self.edges@, increments@, node as int, 0),
                ));
            }
            let mut k: usize = 0;
            while k < self.edges.len()
                invariant
                    graph_wf(*self),
                    n == self.nodes@.len(),
                    increments@.len() == n,
                    node < n,
                    k <= self.edges@.len(),
                    opt_rank(acc) >= opt_rank(increments@[node as int]),
                    opt_rank(acc) == max2(
                        opt_rank(increments@[node as int]),
                        best_dep(self.edges@, increments@, node as int, k as int),
                    ),
                    forall|kk: int|
                        0 <= kk < k && (#[trigger] self.edges@[kk]).1 == node ==> opt_rank(acc)
                            >= opt_rank(increments@[self.edges@[kk].0 as int]),
                decreases self.edges@.len() - k,
            {
                let (ea, eb) = self.edges[k];
                proof {
                    lemma_best_nonneg(self.edges@, increments@, node as int, k as int);
                    assert(self.edges@[k as int] == (ea, eb));
                }
                if eb == node {
                    acc = crate::version::opt_max(acc, increments[ea]);
                }
                k = k + 1;
            }
            let ghost before = increments@;
            let ghost edge_count = self.edges@.len() as int;
            increments.set(node, acc);
            proof {
                assert(forall|x: int| 0 <= x < n && x != node ==> increments@[x] == before[x]);
                assert(increments@[node as int] == acc);
                assert(increments@ =~= before.update(node as int, acc));
                // the fold equations of earlier nodes survive the write
                assert forall|j: int| 0 <= j < idx + 1 implies opt_rank(
                    increments@[(#[trigger] order0[j]) as int],
                ) == max2(
                    opt_rank(old(increments)@[order0[j] as int]),
                    best_dep(self.edges@, increments@, order0[j] as int, edge_count),
                ) by {
                    if j < idx {
                        assert(order0[j] != order0[idx as int]);
                        assert(increments@[order0[j] as int] == before[order0[j] as int]);
                        assert(best_dep(self.edges@, increments@, order0[j] as int, edge_count)
                            == best_dep(self.edges@, before, order0[j] as int, edge_count)) by {
                            assert forall|e: int|
                                0 <= e < edge_count && (#[trigger] self.edges@[e]).1 == order0[j]
                                    implies before[self.edges@[e].0 as int] == increments@[
                                self.edges@[e].0 as int] by {
                                if self.edges@[e].0 == node {
                                    assert(has_edge(self.edges@, node as int, order0[j] as int)) by {
                                        assert(self.edges@[e].0 == node && self.edges@[e].1
                                            == order0[j]);
                                    }
                                    assert(reachable(self.edges@, seeds@, node as int));
                                    let i0 = choose|i0: int| 0 <= i0 < j && order0[i0] == node;
                                    assert(order0[i0] == order0[idx as int]);
                                    assert(false);
                                }
                            }
                            lemma_best_unchanged(
                                self.edges@,
                                before,
                                increments@,
                                order0[j] as int,
                                edge_count,
                            );
                        }
                    } else {
                        // the fresh node: its slot is the inner fold, and
                        // raising its own slot cannot change the bound
                        assert(before[node as int] == old(increments)@[node as int]) by {
                            assert forall|i0: int| 0 <= i0 < idx implies #[trigger] order0[i0]
                                != node by {
                                if order0[i0] == node {
                                    assert(order0[i0] == order0[idx as int]);
                                }
                            }
                        }
                        lemma_best_update(
                            self.edges@,
                            before,
                            node as int,
                            node as int,
                            acc,
                            edge_count,
                        );
                        assert(opt_rank(acc) == max2(
                            opt_rank(before[node as int]),
                            best_dep(self.edges@, before, node as int, edge_count),
                        ));
                    }
                }
                // the prefix law still holds: earlier nodes are untouched,
                // and the new node dominates all its dependencies
                assert forall|j: int, a: int|
                    #![trigger has_edge(self.edges@, a, order0[j] as int)]
                    0 <= j < idx + 1 && 0 <= a < n && has_edge(self.edges@, a, order0[j] as int)
                        implies opt_rank(increments@[order0[j] as int]) >= opt_rank(
                    increments@[a],
                ) by {
                    // a visited dependency is never rewritten afterwards
                    if a == node {
                        // the node writes itself: an edge a -> order0[j]
                        // with a == node means j's slot was already at
                        // least node's old slot, which only grew; handle
                        // the cases below
                        if j < idx {
                            // node feeds an earlier-emitted dependent:
                            // then node was emitted before j, so node
                            // would be rewritten twice, impossible
                            if reachable(self.edges@, seeds@, a) {
                                let i = choose|i: int| 0 <= i < j && order0[i] == a;
                                assert(order0[i] == order0[idx as int]);
                                assert(false);
                            } else {
                                // an unreachable node is never emitted
                                assert(order0[idx as int] == node);
                                assert(order0.contains(node));
                                assert(reachable(self.edges@, seeds@, node as int)) by {
                                    let i = choose|i: int|
                                        0 <= i < order0.len() && order0[i] == node;
                                }
                                assert(false);
                            }
                        } else {
                            // j == idx: a self-edge, and the slot only grew
                            assert(order0[j] == node);
                        }
                    } else {
                        if j < idx {
                            assert(increments@[order0[j] as int] == before[order0[j] as int]);
                            assert(increments@[a] == before[a]);
                        } else {
                            // j == idx: the freshly written node
                            assert(order0[j] == node);
                            if reachable(self.edges@, seeds@, a) {
                                // acc dominates every dependency slot
                                let kk = choose|kk: int|
                                    #![trigger self.edges@[kk]]
                                    0 <= kk < self.edges@.len() && self.edges@[kk].0 == a
                                        && self.edges@[kk].1 == node;
                                assert(opt_rank(acc) >= opt_rank(before[a]));
                                assert(increments@[a] == before[a]);
                            } else {
                                // an unreachable dependency still holds its
                                // initial slot, which must be unset
                                assert(increments@[a] == old(increments)@[a]) by {
                                    assert forall|i: int| 0 <= i < idx implies #[trigger] order0[i]
                                        != a by {
                                        if order0[i] == a {
                                            assert(reachable(self.edges@, seeds@, a));
                                        }
                                    }
                                    assert(before[a] == old(increments)@[a]);
                                }
                                if old(increments)@[a] is Some {
                                    assert(seeds@.contains(a as usize));
                                    let i = choose|i: int|
                                        0 <= i < seeds@.len() && seeds@[i] == a as usize;
                                    assert(reaches(self.edges@, seeds@, a, 0));
                                    assert(false);
                                }
                                assert(opt_rank(increments@[a]) == 0);
                            }
                        }
                    }
                }
            }
            idx = idx + 1;
        }
        proof {
            // reachability from the seed list and from the set slots agree
            assert forall|x: int|
                0 <= x < n && #[trigger] inc_reachable(self.edges@, old(increments)@, x)
                    implies order0.contains(x as usize) by {
                let k = choose|k: nat| src_reaches(self.edges@, old(increments)@, x, k);
                lemma_src_to_reach(self.edges@, seeds@, old(increments)@, x, k);
                assert(reachable(self.edges@, seeds@, x));
            }
            assert forall|x: int|
                0 <= x < n && !inc_reachable(self.edges@, old(increments)@, x)
                    implies increments@[x] == #[trigger] old(increments)@[x] by {
                if reachable(self.edges@, seeds@, x) {
                    let k = choose|k: nat| reaches(self.edges@, seeds@, x, k);
                    lemma_reach_to_src(self.edges@, seeds@, old(increments)@, x, k);
                    assert(inc_reachable(self.edges@, old(increments)@, x)) by {
                        assert(src_reaches(self.edges@, old(increments)@, x, k));
                    }
                    assert(false);
                }
                assert forall|i0: int| 0 <= i0 < order0.len() implies #[trigger] order0[i0]
                    != x by {
                    if order0[i0] == x {
                        assert(reachable(self.edges@, seeds@, order0[i0] as int));
                    }
                }
            }
            assert forall|x: int|
                0 <= x < n && #[trigger] inc_reachable(self.edges@, old(increments)@, x)
                    implies opt_rank(increments@[x]) == max2(
                opt_rank(old(increments)@[x]),
                best_dep(self.edges@, increments@, x, self.edges@.len() as int),
            ) by {
                assert(order0.contains(x as usize));
                let j = choose|j: int| 0 <= j < order0.len() && order0[j] == x as usize;
                assert(order0[j] as int == x);
            }
            assert forall|a: int, b: int|
                #![trigger has_edge(self.edges@, a, b)]
                0 <= a < n && 0 <= b < n && has_edge(self.edges@, a, b) implies opt_rank(
                increments@[b],
            ) >= opt_rank(increments@[a]) by {
                if order0.contains(b as usize) {
                    let j = choose|j: int| 0 <= j < order0.len() && order0[j] == b as usize;
                    assert(has_edge(self.edges@, a, order0[j] as int));
                } else {
                    // b was never emitted, so it kept its slot; if it is
                    // unreachable and a were set, a would be a seed and b
                    // reachable, so a is unset
                    assert(increments@[b] == old(increments)@[b]) by {
                        assert forall|i: int| 0 <= i < order0.len() implies #[trigger] order0[i]
                            != b by {
                            if order0[i] == b {
                                assert(order0.contains(b as usize)) by {
                                    assert(order0[i] == b as usize);
                                }
                            }
                        }
                    }
                    if reachable(self.edges@, seeds@, b) {
                        assert(order0.contains(b as usize));
                        assert(false);
                    }
                    assert(increments@[a] == old(increments)@[a]) by {
                        assert forall|i: int| 0 <= i < order0.len() implies #[trigger] order0[i]
                            != a by {
                            if order0[i] == a {
                                assert(reachable(self.edges@, seeds@, a));
                                let kr = choose|kr: nat| reaches(self.edges@, seeds@, a, kr);
                                assert(reaches(self.edges@, seeds@, b, kr + 1));
                                assert(reachable(self.edges@, seeds@, b));
                                assert(false);
                            }
                        }
                    }
                    if old(increments)@[a] is Some {
                        assert(seeds@.contains(a as usize));
                        let i = choose|i: int| 0 <= i < seeds@.len() && seeds@[i] == a as usize;
                        assert(reaches(self.edges@, seeds@, a, 0));
                        assert(reachable(self.edges@, seeds@, a));
                        let kr = choose|kr: nat| reaches(self.edges@, seeds@, a, kr);
                        assert(reaches(self.edges@, seeds@, b, kr + 1));
                        assert(false);
                    }
                    assert(opt_rank(increments@[a]) == 0);
                }
            }
        }
    }
}


} // verus!
