//! The task graph, held in a `petgraph` directed graph, and what the rest of
//! the library knows of it: its nodes and its edges in insertion order.

use vstd::prelude::*;
use petgraph::graph::Graph;
use petgraph::graph::NodeIndex;
use petgraph::Directed;
use petgraph::Direction;

verus! {

#[verifier::external_type_specification]
#[verifier::external_body]
#[verifier::reject_recursive_types(N)]
#[verifier::reject_recursive_types(E)]
#[verifier::reject_recursive_types(Ty)]
#[verifier::reject_recursive_types(Ix)]
pub struct ExGraph<N, E, Ty, Ix>(Graph<N, E, Ty, Ix>);

#[verifier::external_type_specification]
#[verifier::external_body]
pub struct ExDirected(Directed);

/// The graph that an `AoeNet` runs on: each node holds the position of its
/// task in the net's task list, and edges carry no data.
pub type TaskGraph = Graph<usize, (), Directed, u32>;

/// The node weights of a graph, in node-index order.
pub uninterp spec fn graph_nodes(g: TaskGraph) -> Seq<usize>;

/// The edges of a graph as (source, target) node indices, in the order in
/// which they were added.
pub uninterp spec fn graph_edges(g: TaskGraph) -> Seq<(usize, usize)>;

/// What `petgraph::algo::toposort` returns for a graph with these nodes and
/// edges: the nodes in the order it picks, or the node at which it found a
/// cycle.
pub uninterp spec fn petgraph_toposort(nodes: Seq<usize>, edges: Seq<(usize, usize)>) -> Result<Seq<usize>, usize>;

/// There is an edge from `a` to `b`.
pub open spec fn has_edge(edges: Seq<(usize, usize)>, a: usize, b: usize) -> bool {
    edges.contains((a, b))
}

/// Every edge joins two of the first `n` nodes.
pub open spec fn edges_in_range(edges: Seq<(usize, usize)>, n: nat) -> bool {
    forall|i: int| 0 <= i < edges.len() ==> (#[trigger] edges[i]).0 < n && edges[i].1 < n
}

/// The targets of the edges leaving `a`, most recently added edge first.
pub open spec fn out_neighbors(edges: Seq<(usize, usize)>, a: usize) -> Seq<usize>
    decreases edges.len(),
{
    if edges.len() == 0 {
        Seq::empty()
    } else {
        let rest = out_neighbors(edges.drop_last(), a);
        if edges.last().0 == a {
            seq![edges.last().1] + rest
        } else {
            rest
        }
    }
}

/// The sources of the edges entering `b`, most recently added edge first.
pub open spec fn in_neighbors(edges: Seq<(usize, usize)>, b: usize) -> Seq<usize>
    decreases edges.len(),
{
    if edges.len() == 0 {
        Seq::empty()
    } else {
        let rest = in_neighbors(edges.drop_last(), b);
        if edges.last().1 == b {
            seq![edges.last().0] + rest
        } else {
            rest
        }
    }
}

/// `p` is a walk of at least one edge.
pub open spec fn is_walk(edges: Seq<(usize, usize)>, p: Seq<usize>) -> bool {
    &&& p.len() >= 2
    &&& forall|i: int| 0 <= i < p.len() - 1 ==> has_edge(edges, #[trigger] p[i], p[i + 1])
}

/// Node `v` lies on a closed walk.
pub open spec fn on_cycle(edges: Seq<(usize, usize)>, v: usize) -> bool {
    exists|p: Seq<usize>| is_walk(edges, p) && p[0] == v && #[trigger] p.last() == v
}

/// The graph holds a cycle (a self loop counts as one).
pub open spec fn has_cycle(edges: Seq<(usize, usize)>) -> bool {
    exists|v: usize| on_cycle(edges, v)
}

/// `ord` lists each of the nodes `0..n` once, and every edge goes from an
/// earlier node of `ord` to a later one.
pub open spec fn is_topo_order(n: nat, edges: Seq<(usize, usize)>, ord: Seq<usize>) -> bool {
    &&& ord.len() == n
    &&& ord.no_duplicates()
    &&& forall|i: int| 0 <= i < ord.len() ==> #[trigger] ord[i] < n
    &&& forall|v: usize| v < n ==> #[trigger] ord.contains(v)
    &&& forall|i: int, j: int|
        0 <= i < ord.len() && 0 <= j < ord.len() && has_edge(edges, #[trigger] ord[i], #[trigger] ord[j])
            ==> i < j
}


/// A node's out-neighbour list holds exactly the targets of its edges.
pub proof fn lemma_out_neighbors(edges: Seq<(usize, usize)>, a: usize, x: usize)
    ensures
        out_neighbors(edges, a).contains(x) <==> has_edge(edges, a, x),
    decreases edges.len(),
{
    if edges.len() > 0 {
        let pre = edges.drop_last();
        lemma_out_neighbors(pre, a, x);
        let rest = out_neighbors(pre, a);
        if has_edge(edges, a, x) {
            let i = choose|i: int| 0 <= i < edges.len() && edges[i] == (a, x);
            if i < edges.len() - 1 {
                assert(pre[i] == (a, x));
                assert(has_edge(pre, a, x));
                let k = choose|k: int| 0 <= k < rest.len() && rest[k] == x;
                if edges.last().0 == a {
                    assert((seq![edges.last().1] + rest)[k + 1] == x);
                }
            } else {
                assert((seq![edges.last().1] + rest)[0] == x);
            }
        }
        if out_neighbors(edges, a).contains(x) {
            let s = out_neighbors(edges, a);
            let k = choose|k: int| 0 <= k < s.len() && s[k] == x;
            if edges.last().0 == a {
                if k == 0 {
                    assert(edges[edges.len() - 1] == (a, x));
                } else {
                    assert(rest[k - 1] == x);
                    let i = choose|i: int| 0 <= i < pre.len() && pre[i] == (a, x);
                    assert(edges[i] == (a, x));
                }
            } else {
                assert(rest[k] == x);
                let i = choose|i: int| 0 <= i < pre.len() && pre[i] == (a, x);
                assert(edges[i] == (a, x));
            }
        }
    }
}

/// A node's in-neighbour list holds exactly the sources of its edges.
pub proof fn lemma_in_neighbors(edges: Seq<(usize, usize)>, b: usize, x: usize)
    ensures
        in_neighbors(edges, b).contains(x) <==> has_edge(edges, x, b),
    decreases edges.len(),
{
    if edges.len() > 0 {
        let pre = edges.drop_last();
        lemma_in_neighbors(pre, b, x);
        let rest = in_neighbors(pre, b);
        if has_edge(edges, x, b) {
            let i = choose|i: int| 0 <= i < edges.len() && edges[i] == (x, b);
            if i < edges.len() - 1 {
                assert(pre[i] == (x, b));
                assert(has_edge(pre, x, b));
                let k = choose|k: int| 0 <= k < rest.len() && rest[k] == x;
                if edges.last().1 == b {
                    assert((seq![edges.last().0] + rest)[k + 1] == x);
                }
            } else {
                assert((seq![edges.last().0] + rest)[0] == x);
            }
        }
        if in_neighbors(edges, b).contains(x) {
            let s = in_neighbors(edges, b);
            let k = choose|k: int| 0 <= k < s.len() && s[k] == x;
            if edges.last().1 == b {
                if k == 0 {
                    assert(edges[edges.len() - 1] == (x, b));
                } else {
                    assert(rest[k - 1] == x);
                    let i = choose|i: int| 0 <= i < pre.len() && pre[i] == (x, b);
                    assert(edges[i] == (x, b));
                }
            } else {
                assert(rest[k] == x);
                let i = choose|i: int| 0 <= i < pre.len() && pre[i] == (x, b);
                assert(edges[i] == (x, b));
            }
        }
    }
}

/// The position of node `v` in an order that lists it.
pub open spec fn pos_in(ord: Seq<usize>, v: usize) -> int {
    choose|i: int| 0 <= i < ord.len() && ord[i] == v
}

proof fn lemma_walk_rises(n: nat, edges: Seq<(usize, usize)>, ord: Seq<usize>, p: Seq<usize>, k: int)
    requires
        edges_in_range(edges, n),
        is_topo_order(n, edges, ord),
        is_walk(edges, p),
        1 <= k < p.len(),
    ensures
        p[0] < n,
        p[k] < n,
        pos_in(ord, p[0]) < pos_in(ord, p[k]),
    decreases k,
{
    let a = p[k - 1];
    let b = p[k];
    assert(has_edge(edges, a, b));
    let e = choose|e: int| 0 <= e < edges.len() && edges[e] == (a, b);
    assert(edges[e].0 < n && edges[e].1 < n);
    assert(ord.contains(a));
    assert(ord.contains(b));
    let i = pos_in(ord, a);
    let j = pos_in(ord, b);
    assert(ord[i] == a && ord[j] == b);
    assert(i < j);
    if k > 1 {
        lemma_walk_rises(n, edges, ord, p, k - 1);
    }
}

/// A graph with a topological order has no cycle.
pub proof fn lemma_topo_order_acyclic(n: nat, edges: Seq<(usize, usize)>, ord: Seq<usize>)
    requires
        edges_in_range(edges, n),
        is_topo_order(n, edges, ord),
    ensures
        !has_cycle(edges),
{
    if has_cycle(edges) {
        let v = choose|v: usize| on_cycle(edges, v);
        let p = choose|p: Seq<usize>| is_walk(edges, p) && p[0] == v && #[trigger] p.last() == v;
        lemma_walk_rises(n, edges, ord, p, p.len() - 1);
    }
}

/// Wraps `Graph::new`: the new graph has no nodes and no edges.
#[verifier::external_body]
pub(crate) fn graph_new() -> (g: TaskGraph)
    ensures
        graph_nodes(g) == Seq::<usize>::empty(),
        graph_edges(g) == Seq::<(usize, usize)>::empty(),
{
    Graph::new()
}

/// Wraps `Graph::add_node`: the weight is appended as the last node and its
/// index returned. The source panics once the `u32` index space is full, so
/// the node count must stay below `u32::MAX`.
#[verifier::external_body]
pub(crate) fn graph_add_node(g: &mut TaskGraph, weight: usize) -> (idx: usize)
    requires
        graph_nodes(*old(g)).len() < u32::MAX,
    ensures
        graph_nodes(*final(g)) == graph_nodes(*old(g)).push(weight),
        graph_edges(*final(g)) == graph_edges(*old(g)),
        idx == graph_nodes(*old(g)).len(),
{
    g.add_node(weight).index()
}

/// Wraps `Graph::add_edge`: the edge is appended to the edge list. The source
/// panics on an endpoint that is not a node and once the `u32` edge index
/// space is full.
#[verifier::external_body]
pub(crate) fn graph_add_edge(g: &mut TaskGraph, a: usize, b: usize)
    requires
        a < graph_nodes(*old(g)).len(),
        b < graph_nodes(*old(g)).len(),
        graph_edges(*old(g)).len() < u32::MAX,
    ensures
        graph_nodes(*final(g)) == graph_nodes(*old(g)),
        graph_edges(*final(g)) == graph_edges(*old(g)).push((a, b)),
{
    g.add_edge(NodeIndex::new(a), NodeIndex::new(b), ());
}

/// Wraps indexing a graph by a node (`graph[a]`), which panics when `a` is
/// not a node: returns the node's weight.
#[verifier::external_body]
pub(crate) fn graph_node_weight(g: &TaskGraph, a: usize) -> (w: usize)
    requires
        a < graph_nodes(*g).len(),
    ensures
        w == graph_nodes(*g)[a as int],
{
    g[NodeIndex::new(a)]
}

/// Wraps `Graph::neighbors_directed` on a directed graph, collected: the
/// far ends of the edges leaving `a` (when `outgoing`) or entering `a`, the
/// most recently added edge first, as its documentation states. `a` must be
/// a node: a larger index would be cut to `u32` by `NodeIndex::new`.
#[verifier::external_body]
pub(crate) fn graph_neighbors(g: &TaskGraph, a: usize, outgoing: bool) -> (v: Vec<usize>)
    requires
        a < graph_nodes(*g).len(),
    ensures
        outgoing ==> v@ == out_neighbors(graph_edges(*g), a),
        !outgoing ==> v@ == in_neighbors(graph_edges(*g), a),
{
    let dir = if outgoing { Direction::Outgoing } else { Direction::Incoming };
    let mut v = Vec::new();
    for n in g.neighbors_directed(NodeIndex::new(a), dir) {
        v.push(n.index());
    }
    v
}

/// Wraps `petgraph::algo::toposort`. Its documentation promises, for an
/// acyclic graph, every node once with each node before its successors, and
/// otherwise a `Cycle` error whose node takes part in a cycle (self loops
/// included). Which of the many topological orders it picks is not stated;
/// it is named `petgraph_toposort`.
#[verifier::external_body]
pub(crate) fn graph_toposort(g: &TaskGraph) -> (r: Result<Vec<usize>, usize>)
    ensures
        petgraph_toposort(graph_nodes(*g), graph_edges(*g)) == (match r {
            Ok(v) => Ok(v@),
            Err(c) => Err(c),
        }),
        r matches Ok(ord) ==> is_topo_order(graph_nodes(*g).len(), graph_edges(*g), ord@),
        r matches Err(c) ==> c < graph_nodes(*g).len() && on_cycle(graph_edges(*g), c),
{
    match petgraph::algo::toposort(g, None) {
        Ok(order) => {
            let mut v = Vec::new();
            for n in order {
                v.push(n.index());
            }
            Ok(v)
        },
        Err(cycle) => Err(cycle.node_id().index()),
    }
}

} // verus!
