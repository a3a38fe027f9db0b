//! Laying a scheduled network out in layers: a task sits one layer after the
//! deepest of its predecessors, and the layers are drawn left to right.

use vstd::prelude::*;
use crate::graph::{
    has_edge, edges_in_range, is_topo_order, has_cycle, in_neighbors, out_neighbors, pos_in,
    petgraph_toposort, lemma_in_neighbors, lemma_out_neighbors,
};
use crate::aoe::{AoeNet, Task, spec_pert, task_ids, last_index, lemma_last_index, lookup_index};
use crate::critical_path::{CriticalPathResult, string_views};
use crate::edit::pair_views;

verus! {

/// The first `k` nodes of `ord` have their layer: one more than the deepest
/// predecessor's, or 0 without one (and never more than their position).
pub open spec fn layers_upto(edges: Seq<(usize, usize)>, ord: Seq<usize>, layer: Seq<usize>, k: int) -> bool {
    forall|i: int| #![trigger ord[i]] 0 <= i < k ==> {
        let v = ord[i];
        &&& layer[v as int] <= i
        &&& forall|p: usize| #[trigger] has_edge(edges, p, v) ==> layer[p as int] < layer[v as int]
        &&& layer[v as int] == 0 || exists|p: usize| #[trigger] has_edge(edges, p, v) && layer[p as int] + 1 == layer[v as int]
    }
}

/// `layer` gives every node of `ord` its layer.
pub open spec fn layering_ok(edges: Seq<(usize, usize)>, ord: Seq<usize>, layer: Seq<usize>) -> bool {
    &&& layer.len() == ord.len()
    &&& layers_upto(edges, ord, layer, ord.len() as int)
}

fn compute_layers(net: &AoeNet, ord: &Vec<usize>) -> (layer: Vec<usize>)
    requires
        net.wf(),
        is_topo_order(net.tasks@.len(), net.edges(), ord@),
    ensures
        layering_ok(net.edges(), ord@, layer@),
{
    let n = ord.len();
    let ghost edges = net.edges();
    let mut layer: Vec<usize> = Vec::new();
    let mut i: usize = 0;
    while i < n
        invariant
            i <= n,
            layer@.len() == i,
        decreases n - i,
    {
        layer.push(0);
        i += 1;
    }
    let mut k: usize = 0;
    while k < n
        invariant
            net.wf(),
            edges == net.edges(),
            n == ord@.len() == net.tasks@.len(),
            is_topo_order(n as nat, edges, ord@),
            k <= n,
            layer@.len() == n,
            layers_upto(edges, ord@, layer@, k as int),
        decreases n - k,
    {
        let v = ord[k];
        let preds = net.predecessors(v);
        let mut m: usize = 0;
        let mut t: usize = 0;
        while t < preds.len()
            invariant
                net.wf(),
                edges == net.edges(),
                n == ord@.len() == net.tasks@.len(),
                is_topo_order(n as nat, edges, ord@),
                k < n,
                v == ord@[k as int],
                layer@.len() == n,
                preds@ == in_neighbors(edges, v),
                layers_upto(edges, ord@, layer@, k as int),
                t <= preds.len(),
                t > 0 ==> m < k,
                forall|t2: int| 0 <= t2 < t ==> layer@[#[trigger] preds@[t2] as int] <= m,
                t > 0 ==> exists|t2: int| 0 <= t2 < t && layer@[#[trigger] preds@[t2] as int] == m,
            decreases preds.len() - t,
        {
            let p = preds[t];
            proof {
                lemma_in_neighbors(edges, v, p);
                assert(preds@.contains(p)) by {
                    assert(preds@[t as int] == p);
                }
                let e = choose|e: int| 0 <= e < edges.len() && edges[e] == (p, v);
                assert(edges[e].0 < n);
                assert(ord@.contains(p));
                let j = pos_in(ord@, p);
                assert(ord@[j] == p);
                assert(j < k);
            }
            if t == 0 || layer[p] > m {
                m = layer[p];
            }
            t += 1;
        }
        let lv: usize = if preds.len() == 0 { 0 } else { m + 1 };
        proof {
            assert forall|p: usize| #[trigger] has_edge(edges, p, v) implies layer@[p as int] < lv by {
                lemma_in_neighbors(edges, v, p);
                let t2 = choose|t2: int| 0 <= t2 < preds@.len() && preds@[t2] == p;
                assert(layer@[preds@[t2] as int] <= m);
            }
            if preds@.len() > 0 {
                let t2 = choose|t2: int| 0 <= t2 < preds@.len() && layer@[#[trigger] preds@[t2] as int] == m;
                let p = preds@[t2];
                lemma_in_neighbors(edges, v, p);
                assert(preds@.contains(p));
                assert(has_edge(edges, p, v));
            }
            assert(v < n);
        }
        let ghost layer0 = layer@;
        layer.set(v, lv);
        proof {
            assert forall|i: int| #![trigger ord@[i]] 0 <= i < k + 1 implies {
                let w = ord@[i];
                &&& layer@[w as int] <= i
                &&& forall|p: usize| #[trigger] has_edge(edges, p, w) ==> layer@[p as int] < layer@[w as int]
                &&& layer@[w as int] == 0 || exists|p: usize| #[trigger] has_edge(edges, p, w) && layer@[p as int] + 1 == layer@[w as int]
            } by {
                let w = ord@[i];
                if i < k {
                    assert(w != v);
                    assert forall|p: usize| #[trigger] has_edge(edges, p, w) implies p != v by {
                        if p == v {
                            assert(has_edge(edges, ord@[k as int], ord@[i]));
                        }
                    }
                    if layer0[w as int] != 0 {
                        let p = choose|p: usize| #[trigger] has_edge(edges, p, w) && layer0[p as int] + 1 == layer0[w as int];
                        assert(p != v);
                    }
                } else {
                    assert(w == v);
                    assert forall|p: usize| #[trigger] has_edge(edges, p, w) implies layer@[p as int] < layer@[w as int] by {
                        if p == v {
                            assert(has_edge(edges, ord@[k as int], ord@[k as int]));
                        }
                    }
                    if lv != 0 {
                        let p = choose|p: usize| #[trigger] has_edge(edges, p, v) && layer0[p as int] + 1 == lv;
                        if p == v {
                            assert(has_edge(edges, ord@[k as int], ord@[k as int]));
                        }
                    }
                }
            }
        }
        k += 1;
    }
    layer
}


/// The nodes of `ord` whose layer is `l`, in the order of `ord`.
pub open spec fn layer_members(ord: Seq<usize>, layer: Seq<usize>, l: int) -> Seq<usize>
    decreases ord.len(),
{
    if ord.len() == 0 {
        Seq::empty()
    } else if layer[ord.last() as int] == l {
        layer_members(ord.drop_last(), layer, l).push(ord.last())
    } else {
        layer_members(ord.drop_last(), layer, l)
    }
}

/// The members of layers `0..count`, layer by layer.
pub open spec fn layered_order(ord: Seq<usize>, layer: Seq<usize>, count: int) -> Seq<usize>
    decreases count,
{
    if count <= 0 {
        Seq::empty()
    } else {
        layered_order(ord, layer, count - 1) + layer_members(ord, layer, count - 1)
    }
}

/// The deepest layer of a node of `ord`, or 0 without nodes.
pub open spec fn max_layer(ord: Seq<usize>, layer: Seq<usize>) -> int
    decreases ord.len(),
{
    if ord.len() == 0 {
        0
    } else {
        let m = max_layer(ord.drop_last(), layer);
        if layer[ord.last() as int] > m {
            layer[ord.last() as int] as int
        } else {
            m
        }
    }
}

/// How many of the layers `0..count` have a member.
pub open spec fn nonempty_layers(ord: Seq<usize>, layer: Seq<usize>, count: int) -> int
    decreases count,
{
    if count <= 0 {
        0
    } else if layer_members(ord, layer, count - 1).len() > 0 {
        nonempty_layers(ord, layer, count - 1) + 1
    } else {
        nonempty_layers(ord, layer, count - 1)
    }
}

/// The size of the largest of the layers `0..count`, or 0.
pub open spec fn max_layer_size(ord: Seq<usize>, layer: Seq<usize>, count: int) -> int
    decreases count,
{
    if count <= 0 {
        0
    } else {
        let m = max_layer_size(ord, layer, count - 1);
        let s = layer_members(ord, layer, count - 1).len() as int;
        if s > m {
            s
        } else {
            m
        }
    }
}

/// A node of the drawn graph.
#[derive(Debug, Clone, PartialEq, Eq)]
pub struct NodeLayout {
    pub id: String,
    pub name: String,
    pub duration: i64,
    pub is_critical: bool,
    pub layer: usize,
    pub index_in_layer: usize,
}

/// The drawn graph: nodes layer by layer, edges as pairs of positions in
/// `nodes`, the number of non-empty layers and the size of the largest.
#[derive(Debug, Clone, PartialEq, Eq)]
pub struct GraphLayout {
    pub nodes: Vec<NodeLayout>,
    pub edges: Vec<(usize, usize)>,
    pub layer_count: usize,
    pub max_nodes_in_layer: usize,
}

/// Layout entry `e` draws task `t` in layer `l` at row `index`; it is marked
/// critical when the task's id is among `crit`.
pub open spec fn node_matches(t: Task, l: usize, index: int, crit: Seq<Seq<char>>, e: NodeLayout) -> bool {
    &&& e.id@ == t.id@
    &&& e.name@ == t.name@
    &&& e.duration == spec_pert(t)
    &&& e.is_critical == crit.contains(t.id@)
    &&& e.layer == l
    &&& e.index_in_layer == index
}

/// Entry `g` of `nodes` draws node `ws[g]` in its layer, at its row there.
pub open spec fn nodes_match(
    tasks: Seq<Task>,
    ord: Seq<usize>,
    layer: Seq<usize>,
    crit: Seq<Seq<char>>,
    ws: Seq<usize>,
    nodes: Seq<NodeLayout>,
) -> bool {
    &&& nodes.len() == ws.len()
    &&& forall|g: int| #![trigger nodes[g]] 0 <= g < nodes.len() ==> node_matches(
        tasks[ws[g] as int],
        layer[ws[g] as int],
        g - layered_order(ord, layer, layer[ws[g] as int] as int).len(),
        crit,
        nodes[g],
    )
}

fn contains_id(crit: &Vec<String>, id: &String) -> (r: bool)
    ensures
        r == string_views(crit@).contains(id@),
{
    let mut i: usize = 0;
    while i < crit.len()
        invariant
            i <= crit@.len(),
            forall|j: int| 0 <= j < i ==> (#[trigger] crit@[j])@ != id@,
        decreases crit@.len() - i,
    {
        if crit[i] == *id {
            proof {
                assert(string_views(crit@)[i as int] == id@);
            }
            return true;
        }
        i += 1;
    }
    proof {
        if string_views(crit@).contains(id@) {
            let j = choose|j: int| 0 <= j < crit@.len() && string_views(crit@)[j] == id@;
            assert(crit@[j]@ != id@);
        }
    }
    false
}

fn max_layer_of(ord: &Vec<usize>, layer: &Vec<usize>) -> (m: usize)
    requires
        forall|i: int| 0 <= i < ord@.len() ==> ord@[i] < layer@.len(),
    ensures
        m == max_layer(ord@, layer@),
{
    let mut m: usize = 0;
    let mut k: usize = 0;
    while k < ord.len()
        invariant
            k <= ord@.len(),
            forall|i: int| 0 <= i < ord@.len() ==> ord@[i] < layer@.len(),
            m == max_layer(ord@.take(k as int), layer@),
        decreases ord@.len() - k,
    {
        proof {
            assert(ord@.take(k + 1).drop_last() =~= ord@.take(k as int));
        }
        if layer[ord[k]] > m {
            m = layer[ord[k]];
        }
        k += 1;
    }
    proof {
        assert(ord@.take(ord@.len() as int) =~= ord@);
    }
    m
}


proof fn lemma_max_layer(ord: Seq<usize>, layer: Seq<usize>)
    ensures
        forall|i: int| 0 <= i < ord.len() ==> layer[#[trigger] ord[i] as int] <= max_layer(ord, layer),
        max_layer(ord, layer) == 0 || exists|i: int| 0 <= i < ord.len() && layer[#[trigger] ord[i] as int] == max_layer(ord, layer),
    decreases ord.len(),
{
    if ord.len() > 0 {
        let pre = ord.drop_last();
        lemma_max_layer(pre, layer);
        assert forall|i: int| 0 <= i < ord.len() implies layer[#[trigger] ord[i] as int] <= max_layer(ord, layer) by {
            if i < ord.len() - 1 {
                assert(pre[i] == ord[i]);
            }
        }
        if max_layer(ord, layer) != 0 && max_layer(ord, layer) == max_layer(pre, layer) && layer[ord.last() as int] != max_layer(ord, layer) {
            let i = choose|i: int| 0 <= i < pre.len() && layer[#[trigger] pre[i] as int] == max_layer(pre, layer);
            assert(ord[i] == pre[i]);
        }
    }
}

proof fn lemma_members_step(ord: Seq<usize>, layer: Seq<usize>, l: int, k: int)
    requires
        0 <= k < ord.len(),
    ensures
        layer_members(ord.take(k + 1), layer, l) == if layer[ord[k] as int] == l {
            layer_members(ord.take(k), layer, l).push(ord[k])
        } else {
            layer_members(ord.take(k), layer, l)
        },
{
    assert(ord.take(k + 1).drop_last() =~= ord.take(k));
    assert(ord.take(k + 1).last() == ord[k]);
}

/// The layout nodes of a layered network, layer by layer in the order of
/// `ord`; also the position of every node in that list, and the number of
/// non-empty layers and the size of the largest.
fn layout_nodes(net: &AoeNet, ord: &Vec<usize>, layer: &Vec<usize>, crit: &Vec<String>) -> (r: (Vec<NodeLayout>, Vec<usize>, usize, usize))
    requires
        net.wf(),
        is_topo_order(net.tasks@.len(), net.edges(), ord@),
        layering_ok(net.edges(), ord@, layer@),
    ensures
        ({
            let count = max_layer(ord@, layer@) + 1;
            let ws = layered_order(ord@, layer@, count);
            &&& nodes_match(net.tasks@, ord@, layer@, string_views(crit@), ws, r.0@)
            &&& r.1@.len() == ord@.len()
            &&& forall|g: int| 0 <= g < ws.len() ==> #[trigger] ws[g] < ord@.len() && r.1@[ws[g] as int] < ws.len()
                && ws[r.1@[ws[g] as int] as int] == ws[g]
            &&& r.2 == nonempty_layers(ord@, layer@, count)
            &&& r.3 == max_layer_size(ord@, layer@, count)
        }),
{
    let ghost tasks = net.tasks@;
    let ghost crit_ids = string_views(crit@);
    let n = ord.len();
    proof {
        lemma_max_layer(ord@, layer@);
        if max_layer(ord@, layer@) != 0 {
            let i = choose|i: int| 0 <= i < ord@.len() && layer@[#[trigger] ord@[i] as int] == max_layer(ord@, layer@);
            assert(layer@[ord@[i] as int] <= i);
        }
        assert forall|i: int| 0 <= i < ord@.len() implies #[trigger] ord@[i] < layer@.len() by {}
    }
    let top = max_layer_of(ord, layer);
    let mut gidx: Vec<usize> = Vec::new();
    let mut i: usize = 0;
    while i < n
        invariant
            i <= n,
            gidx@.len() == i,
        decreases n - i,
    {
        gidx.push(0);
        i += 1;
    }
    let mut nodes: Vec<NodeLayout> = Vec::new();
    let mut layer_count: usize = 0;
    let mut max_nodes: usize = 0;
    let ghost mut ws: Seq<usize> = Seq::empty();
    let mut l: usize = 0;
    while l <= top
        invariant
            net.wf(),
            tasks == net.tasks@,
            crit_ids == string_views(crit@),
            n == ord@.len() == tasks.len() == layer@.len(),
            is_topo_order(n as nat, net.edges(), ord@),
            top == max_layer(ord@, layer@),
            top < n || n == 0,
            l <= top + 1,
            ws == layered_order(ord@, layer@, l as int),
            nodes_match(tasks, ord@, layer@, crit_ids, ws, nodes@),
            gidx@.len() == n,
            forall|g: int| 0 <= g < ws.len() ==> #[trigger] ws[g] < n && gidx@[ws[g] as int] < ws.len()
                && ws[gidx@[ws[g] as int] as int] == ws[g],
            ws.len() <= l * n,
            layer_count == nonempty_layers(ord@, layer@, l as int),
            max_nodes == max_layer_size(ord@, layer@, l as int),
            layer_count <= l,
            max_nodes <= n,
        decreases top + 1 - l,
    {
        let ghost base = ws;
        let mut in_layer: usize = 0;
        let mut k: usize = 0;
        while k < n
            invariant
                net.wf(),
                tasks == net.tasks@,
                crit_ids == string_views(crit@),
                n == ord@.len() == tasks.len() == layer@.len(),
                is_topo_order(n as nat, net.edges(), ord@),
                l <= top,
                k <= n,
                base == layered_order(ord@, layer@, l as int),
                base.len() <= l * n,
                ws == base + layer_members(ord@.take(k as int), layer@, l as int),
                in_layer == layer_members(ord@.take(k as int), layer@, l as int).len(),
                in_layer <= k,
                nodes_match(tasks, ord@, layer@, crit_ids, ws, nodes@),
                gidx@.len() == n,
                forall|g: int| 0 <= g < ws.len() ==> #[trigger] ws[g] < n && gidx@[ws[g] as int] < ws.len()
                    && ws[gidx@[ws[g] as int] as int] == ws[g],
            decreases n - k,
        {
            let v = ord[k];
            proof {
                lemma_members_step(ord@, layer@, l as int, k as int);
                assert(v < n);
            }
            if layer[v] == l {
                let task = net.task(v);
                let is_critical = contains_id(crit, &task.id);
                let g = nodes.len();
                proof {
                    assert(base.len() <= l * n);
                    assert(l * n + n <= (l + 1) * n) by (nonlinear_arith);
                    assert((l + 1) * n <= (top + 1) * n) by (nonlinear_arith)
                        requires l <= top;
                }
                let entry = NodeLayout {
                    id: task.id.clone(),
                    name: task.name.clone(),
                    duration: task.pert(),
                    is_critical,
                    layer: l,
                    index_in_layer: in_layer,
                };
                let ghost ws0 = ws;
                let ghost nodes0 = nodes@;
                nodes.push(entry);
                gidx.set(v, g);
                proof {
                    ws = ws.push(v);
                    assert(ws =~= base + layer_members(ord@.take(k + 1), layer@, l as int));
                    assert forall|h: int| #![trigger nodes@[h]] 0 <= h < nodes@.len() implies node_matches(
                        tasks[ws[h] as int],
                        layer@[ws[h] as int],
                        h - layered_order(ord@, layer@, layer@[ws[h] as int] as int).len(),
                        crit_ids,
                        nodes@[h],
                    ) by {
                        if h < g {
                            assert(nodes@[h] == nodes0[h]);
                            assert(ws[h] == ws0[h]);
                        }
                    }
                    assert forall|h: int| 0 <= h < ws.len() implies #[trigger] ws[h] < n && gidx@[ws[h] as int] < ws.len()
                        && ws[gidx@[ws[h] as int] as int] == ws[h] by {
                        if h < g && ws[h] != v {
                            assert(ws[h] == ws0[h]);
                        }
                    }
                }
                in_layer += 1;
            }
            k += 1;
        }
        proof {
            assert(ord@.take(n as int) =~= ord@);
            assert(ws =~= layered_order(ord@, layer@, l + 1));
            assert(base.len() + in_layer <= (l + 1) * n) by (nonlinear_arith)
                requires base.len() <= l * n, in_layer <= n;
        }
        if in_layer > 0 {
            layer_count += 1;
        }
        if in_layer > max_nodes {
            max_nodes = in_layer;
        }
        l += 1;
    }
    (nodes, gidx, layer_count, max_nodes)
}


proof fn lemma_members_contains(s: Seq<usize>, layer: Seq<usize>, l: int, x: usize)
    requires
        s.contains(x),
        layer[x as int] == l,
    ensures
        layer_members(s, layer, l).contains(x),
    decreases s.len(),
{
    let pre = s.drop_last();
    if s.last() == x {
        let m = layer_members(s, layer, l);
        assert(m[m.len() - 1] == x);
    } else {
        let i = choose|i: int| 0 <= i < s.len() && s[i] == x;
        assert(pre[i] == x);
        lemma_members_contains(pre, layer, l, x);
        let m0 = layer_members(pre, layer, l);
        let j = choose|j: int| 0 <= j < m0.len() && m0[j] == x;
        if layer[s.last() as int] == l {
            assert(m0.push(s.last())[j] == x);
        }
    }
}

proof fn lemma_layered_contains(ord: Seq<usize>, layer: Seq<usize>, count: int, l: int, x: usize)
    requires
        0 <= l < count,
        layer_members(ord, layer, l).contains(x),
    ensures
        layered_order(ord, layer, count).contains(x),
    decreases count,
{
    let pre = layered_order(ord, layer, count - 1);
    let m = layer_members(ord, layer, count - 1);
    if l == count - 1 {
        let j = choose|j: int| 0 <= j < m.len() && m[j] == x;
        assert((pre + m)[pre.len() + j] == x);
    } else {
        lemma_layered_contains(ord, layer, count - 1, l, x);
        let j = choose|j: int| 0 <= j < pre.len() && pre[j] == x;
        assert((pre + m)[j] == x);
    }
}

/// The node that a task's id leads back to: the last task with that id.
pub open spec fn node_of_id(tasks: Seq<Task>, w: usize) -> usize {
    last_index(task_ids(tasks), tasks[w as int].id@) as usize
}

/// The edges drawn for the first `g` layout entries, as pairs of graph
/// nodes: for each entry, the edges that leave the node its id leads to,
/// newest edge first.
pub open spec fn layout_edge_nodes(tasks: Seq<Task>, edges: Seq<(usize, usize)>, ws: Seq<usize>, g: int) -> Seq<(usize, usize)>
    decreases g,
{
    if g <= 0 {
        Seq::empty()
    } else {
        let src = node_of_id(tasks, ws[g - 1]);
        layout_edge_nodes(tasks, edges, ws, g - 1) + out_neighbors(edges, src).map_values(|t: usize| (src, t))
    }
}

/// `out` lists the drawn edges as positions in `ws`.
pub open spec fn edges_match(tasks: Seq<Task>, edges: Seq<(usize, usize)>, ws: Seq<usize>, out: Seq<(usize, usize)>) -> bool {
    let expected = layout_edge_nodes(tasks, edges, ws, ws.len() as int);
    &&& out.len() == expected.len()
    &&& forall|e: int| 0 <= e < out.len() ==> (#[trigger] out[e]).0 < ws.len() && out[e].1 < ws.len()
        && (ws[out[e].0 as int], ws[out[e].1 as int]) == expected[e]
}

fn layout_edges(
    net: &AoeNet,
    nodes: &Vec<NodeLayout>,
    gidx: &Vec<usize>,
    Ghost(ord): Ghost<Seq<usize>>,
    Ghost(layer): Ghost<Seq<usize>>,
    Ghost(crit): Ghost<Seq<Seq<char>>>,
    Ghost(ws): Ghost<Seq<usize>>,
) -> (out: Vec<(usize, usize)>)
    requires
        net.wf(),
        nodes_match(net.tasks@, ord, layer, crit, ws, nodes@),
        gidx@.len() == net.tasks@.len(),
        forall|g: int| 0 <= g < ws.len() ==> #[trigger] ws[g] < net.tasks@.len() && gidx@[ws[g] as int] < ws.len()
            && ws[gidx@[ws[g] as int] as int] == ws[g],
        forall|x: usize| x < net.tasks@.len() ==> #[trigger] ws.contains(x),
    ensures
        edges_match(net.tasks@, net.edges(), ws, out@),
{
    let ghost tasks = net.tasks@;
    let ghost edges = net.edges();
    let ghost ids = task_ids(tasks);
    let n = net.tasks.len();
    let mut out: Vec<(usize, usize)> = Vec::new();
    let mut g: usize = 0;
    while g < nodes.len()
        invariant
            net.wf(),
            tasks == net.tasks@,
            edges == net.edges(),
            ids == task_ids(tasks),
            n == tasks.len(),
            nodes_match(tasks, ord, layer, crit, ws, nodes@),
            gidx@.len() == n,
            forall|h: int| 0 <= h < ws.len() ==> #[trigger] ws[h] < n && gidx@[ws[h] as int] < ws.len()
                && ws[gidx@[ws[h] as int] as int] == ws[h],
            forall|x: usize| x < n ==> #[trigger] ws.contains(x),
            g <= nodes@.len(),
            out@.len() == layout_edge_nodes(tasks, edges, ws, g as int).len(),
            forall|e: int| 0 <= e < out@.len() ==> (#[trigger] out@[e]).0 < ws.len() && out@[e].1 < ws.len()
                && (ws[out@[e].0 as int], ws[out@[e].1 as int]) == layout_edge_nodes(tasks, edges, ws, g as int)[e],
        decreases nodes@.len() - g,
    {
        let ghost w = ws[g as int];
        proof {
            assert(node_matches(tasks[w as int], layer[w as int], g - layered_order(ord, layer, layer[w as int] as int).len(), crit, nodes@[g as int]));
            lemma_last_index(ids, tasks[w as int].id@);
            assert(ids[w as int] == tasks[w as int].id@);
        }
        let idx = match lookup_index(&net.index_map, &nodes[g].id, Ghost(ids)) {
            Some(i) => i,
            None => {
                proof {
                    assert(ids.contains(tasks[w as int].id@));
                }
                0
            },
        };
        let ghost src = node_of_id(tasks, w);
        proof {
            assert(idx == src);
            assert(ws.contains(idx));
            let h = choose|h: int| 0 <= h < ws.len() && ws[h] == idx;
            assert(ws[h] < n);
        }
        let from_global = gidx[idx];
        let succs = net.successors(idx);
        let ghost prev = layout_edge_nodes(tasks, edges, ws, g as int);
        let ghost pairs = out_neighbors(edges, src).map_values(|t: usize| (src, t));
        proof {
            assert(layout_edge_nodes(tasks, edges, ws, g + 1) == prev + pairs);
        }
        let mut t: usize = 0;
        while t < succs.len()
            invariant
                net.wf(),
                edges == net.edges(),
                n == tasks.len() == net.tasks@.len(),
                gidx@.len() == n,
                forall|h: int| 0 <= h < ws.len() ==> #[trigger] ws[h] < n && gidx@[ws[h] as int] < ws.len()
                    && ws[gidx@[ws[h] as int] as int] == ws[h],
                forall|x: usize| x < n ==> #[trigger] ws.contains(x),
                succs@ == out_neighbors(edges, src),
                pairs == out_neighbors(edges, src).map_values(|t: usize| (src, t)),
                from_global < ws.len(),
                ws[from_global as int] == src,
                t <= succs@.len(),
                out@.len() == prev.len() + t,
                forall|e: int| 0 <= e < out@.len() ==> (#[trigger] out@[e]).0 < ws.len() && out@[e].1 < ws.len()
                    && (ws[out@[e].0 as int], ws[out@[e].1 as int]) == (prev + pairs)[e],
            decreases succs@.len() - t,
        {
            let sx = succs[t];
            proof {
                lemma_out_neighbors(edges, src, sx);
                assert(succs@.contains(sx)) by {
                    assert(succs@[t as int] == sx);
                }
                let e = choose|e: int| 0 <= e < edges.len() && edges[e] == (src, sx);
                assert(edges[e].1 < n);
                assert(ws.contains(sx));
                let h = choose|h: int| 0 <= h < ws.len() && ws[h] == sx;
                assert(ws[h] < n);
            }
            let to_global = gidx[sx];
            let ghost out0 = out@;
            out.push((from_global, to_global));
            proof {
                assert forall|e: int| 0 <= e < out@.len() implies (#[trigger] out@[e]).0 < ws.len() && out@[e].1 < ws.len()
                    && (ws[out@[e].0 as int], ws[out@[e].1 as int]) == (prev + pairs)[e] by {
                    if e < out0.len() {
                        assert(out@[e] == out0[e]);
                    } else {
                        assert(pairs[t as int] == (src, sx));
                        assert((prev + pairs)[e] == pairs[t as int]);
                    }
                }
            }
            t += 1;
        }
        g += 1;
    }
    out
}


/// `r` lays out the network visited in order `ord` with the given layers,
/// marking the tasks whose ids are in `crit`.
pub open spec fn layout_with_layers(
    tasks: Seq<Task>,
    edges: Seq<(usize, usize)>,
    ord: Seq<usize>,
    layer: Seq<usize>,
    crit: Seq<Seq<char>>,
    r: GraphLayout,
) -> bool {
    let count = max_layer(ord, layer) + 1;
    let ws = layered_order(ord, layer, count);
    &&& nodes_match(tasks, ord, layer, crit, ws, r.nodes@)
    &&& edges_match(tasks, edges, ws, r.edges@)
    &&& r.layer_count == nonempty_layers(ord, layer, count)
    &&& r.max_nodes_in_layer == max_layer_size(ord, layer, count)
}

/// `r` lays out the network visited in order `ord`: every task sits in the
/// layer one past its deepest predecessor (0 without one), layers are
/// listed in turn with their members in the order of `ord`.
pub open spec fn layout_ok(tasks: Seq<Task>, edges: Seq<(usize, usize)>, ord: Seq<usize>, crit: Seq<Seq<char>>, r: GraphLayout) -> bool {
    exists|layer: Seq<usize>| layering_ok(edges, ord, layer) && layout_with_layers(tasks, edges, ord, layer, crit, r)
}

/// Lays out a network whose nodes are visited in the topological order
/// `order` (in `compute_layout`, the order that `petgraph` picks), marking
/// the tasks on the critical path of `result`.
pub fn layout_for_order(net: &AoeNet, order: &Vec<usize>, result: &CriticalPathResult) -> (r: GraphLayout)
    requires
        net.wf(),
        is_topo_order(net.tasks@.len(), net.edges(), order@),
    ensures
        layout_ok(net.tasks@, net.edges(), order@, string_views(result.critical_path@), r),
{
    let ghost tasks = net.tasks@;
    let ghost crit = string_views(result.critical_path@);
    let layer = compute_layers(net, order);
    let (nodes, gidx, layer_count, max_nodes) = layout_nodes(net, order, &layer, &result.critical_path);
    let ghost count = max_layer(order@, layer@) + 1;
    let ghost ws = layered_order(order@, layer@, count);
    proof {
        lemma_max_layer(order@, layer@);
        assert forall|x: usize| x < tasks.len() implies #[trigger] ws.contains(x) by {
            assert(order@.contains(x));
            let i = choose|i: int| 0 <= i < order@.len() && order@[i] == x;
            assert(layer@[order@[i] as int] <= max_layer(order@, layer@));
            lemma_members_contains(order@, layer@, layer@[x as int] as int, x);
            lemma_layered_contains(order@, layer@, count, layer@[x as int] as int, x);
        }
    }
    let edges = layout_edges(net, &nodes, &gidx, Ghost(order@), Ghost(layer@), Ghost(crit), Ghost(ws));
    let r = GraphLayout { nodes, edges, layer_count, max_nodes_in_layer: max_nodes };
    proof {
        assert(layering_ok(net.edges(), order@, layer@) && layout_with_layers(tasks, net.edges(), order@, layer@, crit, r));
    }
    r
}

/// Lays out an acyclic network in the topological order that `petgraph`
/// picks.
pub fn compute_layout(net: &AoeNet, result: &CriticalPathResult) -> (r: GraphLayout)
    requires
        net.wf(),
        !has_cycle(net.edges()),
    ensures
        exists|ord: Seq<usize>| petgraph_toposort(net.nodes(), net.edges()) == Ok::<Seq<usize>, usize>(ord)
            && is_topo_order(net.tasks@.len(), net.edges(), ord)
            && layout_ok(net.tasks@, net.edges(), ord, string_views(result.critical_path@), r),
{
    match net.topological_order() {
        Ok(order) => layout_for_order(net, &order, result),
        Err(_) => {
            proof {
                assert(false);
            }
            GraphLayout { nodes: Vec::new(), edges: Vec::new(), layer_count: 0, max_nodes_in_layer: 0 }
        },
    }
}


proof fn lemma_layering_agree_upto(
    n: nat,
    edges: Seq<(usize, usize)>,
    ord1: Seq<usize>,
    l1: Seq<usize>,
    ord2: Seq<usize>,
    l2: Seq<usize>,
    k: int,
)
    requires
        edges_in_range(edges, n),
        is_topo_order(n, edges, ord1),
        is_topo_order(n, edges, ord2),
        layering_ok(edges, ord1, l1),
        layering_ok(edges, ord2, l2),
        0 <= k <= ord1.len(),
    ensures
        forall|i: int| 0 <= i < k ==> l1[#[trigger] ord1[i] as int] == l2[ord1[i] as int],
    decreases k,
{
    if k > 0 {
        lemma_layering_agree_upto(n, edges, ord1, l1, ord2, l2, k - 1);
        let v = ord1[k - 1];
        assert(ord2.contains(v));
        let i2 = choose|i2: int| 0 <= i2 < ord2.len() && ord2[i2] == v;
        assert(ord2[i2] == v);
        assert forall|p: usize| #[trigger] has_edge(edges, p, v) implies l1[p as int] == l2[p as int] by {
            let e = choose|e: int| 0 <= e < edges.len() && edges[e] == (p, v);
            assert(edges[e].0 < n);
            assert(ord1.contains(p));
            let j = pos_in(ord1, p);
            assert(ord1[j] == p);
            assert(has_edge(edges, ord1[j], ord1[k - 1]));
            assert(j < k - 1);
        }
        if l1[v as int] != 0 {
            let p = choose|p: usize| #[trigger] has_edge(edges, p, v) && l1[p as int] + 1 == l1[v as int];
            assert(l2[p as int] < l2[v as int]);
        }
        if l2[v as int] != 0 {
            let p = choose|p: usize| #[trigger] has_edge(edges, p, v) && l2[p as int] + 1 == l2[v as int];
            assert(l1[p as int] < l1[v as int]);
        }
    }
}

/// The layer of every node is determined by the graph alone: two layerings
/// of the same network, in any two topological orders, agree on every node.
pub proof fn lemma_layering_unique(
    n: nat,
    edges: Seq<(usize, usize)>,
    ord1: Seq<usize>,
    l1: Seq<usize>,
    ord2: Seq<usize>,
    l2: Seq<usize>,
)
    requires
        edges_in_range(edges, n),
        is_topo_order(n, edges, ord1),
        is_topo_order(n, edges, ord2),
        layering_ok(edges, ord1, l1),
        layering_ok(edges, ord2, l2),
    ensures
        forall|v: usize| v < n ==> l1[v as int] == l2[v as int],
{
    lemma_layering_agree_upto(n, edges, ord1, l1, ord2, l2, ord1.len() as int);
    assert forall|v: usize| v < n implies l1[v as int] == l2[v as int] by {
        assert(ord1.contains(v));
        let i = choose|i: int| 0 <= i < ord1.len() && ord1[i] == v;
        assert(l1[ord1[i] as int] == l2[ord1[i] as int]);
    }
}

/// Every drawn edge goes from a node in one layer to a node in a later
/// layer.
pub proof fn lemma_layout_edges_go_forward(
    tasks: Seq<Task>,
    edges: Seq<(usize, usize)>,
    ord: Seq<usize>,
    crit: Seq<Seq<char>>,
    r: GraphLayout,
    e: int,
)
    requires
        layout_ok(tasks, edges, ord, crit, r),
        edges_in_range(edges, tasks.len()),
        is_topo_order(tasks.len(), edges, ord),
        0 <= e < r.edges@.len(),
    ensures
        r.edges@[e].0 < r.nodes@.len(),
        r.edges@[e].1 < r.nodes@.len(),
        r.nodes@[r.edges@[e].0 as int].layer < r.nodes@[r.edges@[e].1 as int].layer,
{
    let layer = choose|layer: Seq<usize>| layering_ok(edges, ord, layer) && layout_with_layers(tasks, edges, ord, layer, crit, r);
    let count = max_layer(ord, layer) + 1;
    let ws = layered_order(ord, layer, count);
    let (a, b) = r.edges@[e];
    let expected = layout_edge_nodes(tasks, edges, ws, ws.len() as int);
    assert(r.edges@[e].0 < ws.len() && r.edges@[e].1 < ws.len());
    lemma_edge_nodes_are_edges(tasks, edges, ws, ws.len() as int, e);
    let (x, y) = expected[e];
    assert(ws[a as int] == x && ws[b as int] == y);
    assert(has_edge(edges, x, y));
    let i = choose|i: int| 0 <= i < edges.len() && edges[i] == (x, y);
    assert(edges[i].1 < tasks.len());
    assert(ord.contains(y));
    let j = pos_in(ord, y);
    assert(ord[j] == y);
    assert(layer[x as int] < layer[y as int]);
    assert(node_matches(tasks[ws[a as int] as int], layer[ws[a as int] as int],
        a - layered_order(ord, layer, layer[ws[a as int] as int] as int).len(), crit, r.nodes@[a as int]));
    assert(node_matches(tasks[ws[b as int] as int], layer[ws[b as int] as int],
        b - layered_order(ord, layer, layer[ws[b as int] as int] as int).len(), crit, r.nodes@[b as int]));
}

proof fn lemma_edge_nodes_are_edges(tasks: Seq<Task>, edges: Seq<(usize, usize)>, ws: Seq<usize>, g: int, e: int)
    requires
        0 <= e < layout_edge_nodes(tasks, edges, ws, g).len(),
    ensures
        has_edge(edges, layout_edge_nodes(tasks, edges, ws, g)[e].0, layout_edge_nodes(tasks, edges, ws, g)[e].1),
    decreases g,
{
    if g > 0 {
        let prev = layout_edge_nodes(tasks, edges, ws, g - 1);
        let src = node_of_id(tasks, ws[g - 1]);
        let pairs = out_neighbors(edges, src).map_values(|t: usize| (src, t));
        if e < prev.len() {
            lemma_edge_nodes_are_edges(tasks, edges, ws, g - 1, e);
            assert((prev + pairs)[e] == prev[e]);
        } else {
            let t = out_neighbors(edges, src)[e - prev.len()];
            assert((prev + pairs)[e] == (src, t));
            lemma_out_neighbors(edges, src, t);
            assert(out_neighbors(edges, src).contains(t));
        }
    }
}


/// For each layer `0..max(layer_count, 1)`, one more than the largest row
/// index of a node drawn in it (0 for a layer without nodes); nodes in
/// layers beyond that range are ignored.
pub open spec fn layer_sizes_of(nodes: Seq<NodeLayout>, len: int, l: int) -> int
    decreases nodes.len(),
{
    if nodes.len() == 0 {
        0
    } else {
        let rest = layer_sizes_of(nodes.drop_last(), len, l);
        let e = nodes.last();
        if e.layer == l && (e.layer as int) < len && e.index_in_layer + 1 > rest {
            e.index_in_layer + 1
        } else {
            rest
        }
    }
}

/// The number of rows that each layer of a layout takes; see
/// `layer_sizes_of`.
pub fn layer_sizes(layout: &GraphLayout) -> (r: Vec<usize>)
    requires
        forall|g: int| 0 <= g < layout.nodes@.len() ==> (#[trigger] layout.nodes@[g]).index_in_layer < usize::MAX,
    ensures
        r@.len() == if layout.layer_count > 1 { layout.layer_count as int } else { 1 },
        forall|l: int| 0 <= l < r@.len() ==> r@[l] == layer_sizes_of(layout.nodes@, r@.len() as int, l),
{
    let len = if layout.layer_count > 1 { layout.layer_count } else { 1 };
    let mut sizes: Vec<usize> = Vec::new();
    let mut i: usize = 0;
    while i < len
        invariant
            i <= len,
            sizes@.len() == i,
            forall|l: int| 0 <= l < i ==> sizes@[l] == 0,
        decreases len - i,
    {
        sizes.push(0);
        i += 1;
    }
    let mut g: usize = 0;
    while g < layout.nodes.len()
        invariant
            g <= layout.nodes@.len(),
            forall|h: int| 0 <= h < layout.nodes@.len() ==> (#[trigger] layout.nodes@[h]).index_in_layer < usize::MAX,
            sizes@.len() == len,
            forall|l: int| 0 <= l < len ==> sizes@[l] == layer_sizes_of(layout.nodes@.take(g as int), len as int, l),
        decreases layout.nodes@.len() - g,
    {
        let node = &layout.nodes[g];
        proof {
            assert(layout.nodes@.take(g + 1).drop_last() =~= layout.nodes@.take(g as int));
            assert(layout.nodes@.take(g + 1).last() == layout.nodes@[g as int]);
        }
        if node.layer < sizes.len() {
            let l = node.layer;
            if node.index_in_layer + 1 > sizes[l] {
                sizes.set(l, node.index_in_layer + 1);
            }
        }
        g += 1;
    }
    proof {
        assert(layout.nodes@.take(layout.nodes@.len() as int) =~= layout.nodes@);
    }
    sizes
}

/// The ids at the two ends of every edge of a layout, in order.
pub open spec fn edge_id_pairs(layout: GraphLayout) -> Seq<(Seq<char>, Seq<char>)> {
    layout.edges@.map_values(|e: (usize, usize)| (layout.nodes@[e.0 as int].id@, layout.nodes@[e.1 as int].id@))
}

/// The ids at the two ends of every edge of a layout; see `edge_id_pairs`.
pub fn edge_ids(layout: &GraphLayout) -> (r: Vec<(String, String)>)
    requires
        forall|e: int| 0 <= e < layout.edges@.len() ==> (#[trigger] layout.edges@[e]).0 < layout.nodes@.len()
            && layout.edges@[e].1 < layout.nodes@.len(),
    ensures
        pair_views(r@) == edge_id_pairs(*layout),
{
    let mut out: Vec<(String, String)> = Vec::new();
    let mut e: usize = 0;
    while e < layout.edges.len()
        invariant
            e <= layout.edges@.len(),
            forall|k: int| 0 <= k < layout.edges@.len() ==> (#[trigger] layout.edges@[k]).0 < layout.nodes@.len()
                && layout.edges@[k].1 < layout.nodes@.len(),
            pair_views(out@) == edge_id_pairs(*layout).take(e as int),
        decreases layout.edges@.len() - e,
    {
        let (a, b) = layout.edges[e];
        let ghost before = out@;
        out.push((layout.nodes[a].id.clone(), layout.nodes[b].id.clone()));
        proof {
            assert(pair_views(out@) =~= pair_views(before).push((layout.nodes@[a as int].id@, layout.nodes@[b as int].id@)));
            assert(edge_id_pairs(*layout)[e as int] == (layout.nodes@[a as int].id@, layout.nodes@[b as int].id@));
            assert(pair_views(out@) =~= edge_id_pairs(*layout).take(e + 1));
        }
        e += 1;
    }
    proof {
        assert(edge_id_pairs(*layout).take(layout.edges@.len() as int) =~= edge_id_pairs(*layout));
    }
    out
}


proof fn lemma_members_props(s: Seq<usize>, layer: Seq<usize>, l: int)
    ensures
        forall|j: int| 0 <= j < layer_members(s, layer, l).len() ==> layer[#[trigger] layer_members(s, layer, l)[j] as int] == l
            && s.contains(layer_members(s, layer, l)[j]),
        s.no_duplicates() ==> layer_members(s, layer, l).no_duplicates(),
    decreases s.len(),
{
    if s.len() > 0 {
        let pre = s.drop_last();
        lemma_members_props(pre, layer, l);
        let m0 = layer_members(pre, layer, l);
        let m = layer_members(s, layer, l);
        assert forall|j: int| 0 <= j < m.len() implies layer[#[trigger] m[j] as int] == l && s.contains(m[j]) by {
            if j < m0.len() {
                assert(m[j] == m0[j]);
                let k = choose|k: int| 0 <= k < pre.len() && pre[k] == m0[j];
                assert(s[k] == m0[j]);
            } else {
                assert(m[j] == s.last());
                assert(s[s.len() - 1] == s.last());
            }
        }
        if s.no_duplicates() && layer[s.last() as int] == l {
            assert(pre.no_duplicates()) by {
                assert forall|a: int, b: int| 0 <= a < pre.len() && 0 <= b < pre.len() && a != b implies pre[a] != pre[b] by {
                    assert(pre[a] == s[a] && pre[b] == s[b]);
                }
            }
            assert forall|j: int| 0 <= j < m0.len() implies m0[j] != s.last() by {
                let k = choose|k: int| 0 <= k < pre.len() && pre[k] == m0[j];
                assert(s[k] == pre[k]);
                assert(s[s.len() - 1] == s.last());
            }
        }
        if s.no_duplicates() && layer[s.last() as int] != l {
            assert(pre.no_duplicates()) by {
                assert forall|a: int, b: int| 0 <= a < pre.len() && 0 <= b < pre.len() && a != b implies pre[a] != pre[b] by {
                    assert(pre[a] == s[a] && pre[b] == s[b]);
                }
            }
        }
    }
}

proof fn lemma_layered_props(ord: Seq<usize>, layer: Seq<usize>, count: int)
    ensures
        forall|j: int| 0 <= j < layered_order(ord, layer, count).len() ==> layer[#[trigger] layered_order(ord, layer, count)[j] as int] < count
            && ord.contains(layered_order(ord, layer, count)[j]),
        ord.no_duplicates() ==> layered_order(ord, layer, count).no_duplicates(),
    decreases count,
{
    if count > 0 {
        lemma_layered_props(ord, layer, count - 1);
        lemma_members_props(ord, layer, count - 1);
        let w0 = layered_order(ord, layer, count - 1);
        let m = layer_members(ord, layer, count - 1);
        let w = layered_order(ord, layer, count);
        assert(w == w0 + m);
        assert forall|j: int| 0 <= j < w.len() implies layer[#[trigger] w[j] as int] < count && ord.contains(w[j]) by {
            if j < w0.len() {
                assert(w[j] == w0[j]);
            } else {
                assert(w[j] == m[j - w0.len()]);
            }
        }
        if ord.no_duplicates() {
            assert forall|a: int, b: int| 0 <= a < w.len() && 0 <= b < w.len() && a != b implies w[a] != w[b] by {
                if a < w0.len() && b < w0.len() {
                    assert(w[a] == w0[a] && w[b] == w0[b]);
                } else if a >= w0.len() && b >= w0.len() {
                    assert(w[a] == m[a - w0.len()] && w[b] == m[b - w0.len()]);
                } else if a < w0.len() {
                    assert(w[a] == w0[a] && w[b] == m[b - w0.len()]);
                    assert(layer[w0[a] as int] < count - 1);
                } else {
                    assert(w[b] == w0[b] && w[a] == m[a - w0.len()]);
                    assert(layer[w0[b] as int] < count - 1);
                }
            }
        }
    }
}

/// A layout draws every task exactly once: it has one node per task, and
/// each task is drawn by a node that shows its id, name and duration.
pub proof fn lemma_layout_draws_each_task_once(
    tasks: Seq<Task>,
    edges: Seq<(usize, usize)>,
    ord: Seq<usize>,
    crit: Seq<Seq<char>>,
    r: GraphLayout,
)
    requires
        layout_ok(tasks, edges, ord, crit, r),
        is_topo_order(tasks.len(), edges, ord),
        tasks.len() <= usize::MAX,
    ensures
        r.nodes@.len() == tasks.len(),
        forall|v: int| #![trigger tasks[v]] 0 <= v < tasks.len() ==> exists|g: int| 0 <= g < r.nodes@.len()
            && (#[trigger] r.nodes@[g]).id@ == tasks[v].id@ && r.nodes@[g].name@ == tasks[v].name@
            && r.nodes@[g].duration == spec_pert(tasks[v]),
{
    let layer = choose|layer: Seq<usize>| layering_ok(edges, ord, layer) && layout_with_layers(tasks, edges, ord, layer, crit, r);
    let count = max_layer(ord, layer) + 1;
    let ws = layered_order(ord, layer, count);
    let n = tasks.len();
    lemma_layered_props(ord, layer, count);
    lemma_max_layer(ord, layer);
    assert forall|x: usize| x < n implies #[trigger] ws.contains(x) by {
        assert(ord.contains(x));
        let i = choose|i: int| 0 <= i < ord.len() && ord[i] == x;
        assert(layer[ord[i] as int] <= max_layer(ord, layer));
        lemma_members_contains(ord, layer, layer[x as int] as int, x);
        lemma_layered_contains(ord, layer, count, layer[x as int] as int, x);
    }
    // the nodes are a permutation of 0..n
    let range = Set::new(|x: usize| x < n);
    assert(ws.to_set() =~= range) by {
        assert forall|x: usize| ws.to_set().contains(x) implies x < n by {
            let j = choose|j: int| 0 <= j < ws.len() && ws[j] == x;
            assert(ord.contains(ws[j]));
            let i = choose|i: int| 0 <= i < ord.len() && ord[i] == x;
        }
    }
    assert(ord.no_duplicates());
    assert(ws.no_duplicates());
    ws.unique_seq_to_set();
    let ints = vstd::set_lib::set_int_range(0, n as int);
    vstd::set_lib::lemma_int_range(0, n as int);
    let f = |i: int| i as usize;
    assert forall|a: int, b: int| ints.contains(a) && ints.contains(b) && #[trigger] f(a) == #[trigger] f(b) implies a == b by {}
    assert(ints.map(f) =~= range) by {
        assert forall|x: usize| range.contains(x) implies ints.map(f).contains(x) by {
            assert(ints.contains(x as int) && f(x as int) == x);
        }
    }
    vstd::set_lib::lemma_map_size(ints, range, f);
    assert forall|v: int| #![trigger tasks[v]] 0 <= v < n implies exists|g: int| 0 <= g < r.nodes@.len()
        && (#[trigger] r.nodes@[g]).id@ == tasks[v].id@ && r.nodes@[g].name@ == tasks[v].name@
        && r.nodes@[g].duration == spec_pert(tasks[v]) by {
        assert(ws.contains(v as usize));
        let g = choose|g: int| 0 <= g < ws.len() && ws[g] == v as usize;
        assert(node_matches(tasks[ws[g] as int], layer[ws[g] as int],
            g - layered_order(ord, layer, layer[ws[g] as int] as int).len(), crit, r.nodes@[g]));
    }
}

proof fn lemma_layered_prefix(ord: Seq<usize>, layer: Seq<usize>, l: int, c: int)
    requires
        0 <= l <= c,
    ensures
        layered_order(ord, layer, l).len() <= layered_order(ord, layer, c).len(),
        forall|i: int| 0 <= i < layered_order(ord, layer, l).len()
            ==> #[trigger] layered_order(ord, layer, c)[i] == layered_order(ord, layer, l)[i],
    decreases c - l,
{
    if l < c {
        lemma_layered_prefix(ord, layer, l, c - 1);
        let w0 = layered_order(ord, layer, c - 1);
        let w = layered_order(ord, layer, c);
        assert(w == w0 + layer_members(ord, layer, c - 1));
        assert forall|i: int| 0 <= i < layered_order(ord, layer, l).len()
            implies #[trigger] w[i] == layered_order(ord, layer, l)[i] by {
            assert(w[i] == w0[i]);
        }
    }
}

proof fn lemma_in_block(ord: Seq<usize>, layer: Seq<usize>, c: int, g: int)
    requires
        0 <= g < layered_order(ord, layer, c).len(),
    ensures
        0 <= layer[layered_order(ord, layer, c)[g] as int] < c,
        layered_order(ord, layer, layer[layered_order(ord, layer, c)[g] as int] as int).len() <= g,
        g < layered_order(ord, layer, layer[layered_order(ord, layer, c)[g] as int] as int).len()
            + layer_members(ord, layer, layer[layered_order(ord, layer, c)[g] as int] as int).len(),
    decreases c,
{
    let w0 = layered_order(ord, layer, c - 1);
    let m = layer_members(ord, layer, c - 1);
    let w = layered_order(ord, layer, c);
    assert(w == w0 + m);
    lemma_members_props(ord, layer, c - 1);
    if g < w0.len() {
        assert(w[g] == w0[g]);
        lemma_in_block(ord, layer, c - 1, g);
    } else {
        assert(w[g] == m[g - w0.len()]);
        assert(layer[m[g - w0.len()] as int] == c - 1);
    }
}

proof fn lemma_block_entry(ord: Seq<usize>, layer: Seq<usize>, c: int, l: int, j: int)
    requires
        0 <= l < c,
        0 <= j < layer_members(ord, layer, l).len(),
    ensures
        layered_order(ord, layer, l).len() + j < layered_order(ord, layer, c).len(),
        layered_order(ord, layer, c)[layered_order(ord, layer, l).len() + j] == layer_members(ord, layer, l)[j],
{
    lemma_layered_prefix(ord, layer, l + 1, c);
    let w1 = layered_order(ord, layer, l + 1);
    assert(w1 == layered_order(ord, layer, l) + layer_members(ord, layer, l));
    assert(w1[layered_order(ord, layer, l).len() + j] == layer_members(ord, layer, l)[j]);
}

proof fn lemma_max_layer_size(ord: Seq<usize>, layer: Seq<usize>, c: int)
    ensures
        forall|l: int| 0 <= l < c ==> #[trigger] layer_members(ord, layer, l).len() <= max_layer_size(ord, layer, c),
        max_layer_size(ord, layer, c) == 0
            || exists|l: int| 0 <= l < c && #[trigger] layer_members(ord, layer, l).len() == max_layer_size(ord, layer, c),
    decreases c,
{
    if c > 0 {
        lemma_max_layer_size(ord, layer, c - 1);
    }
}

/// The size of the largest layer is the number of rows a layout needs: every
/// node's row within its layer is below it, and when there are nodes, some
/// node sits in the last of those rows (so every layer counts, the first
/// one too).
pub proof fn lemma_layout_rows_fit(
    tasks: Seq<Task>,
    edges: Seq<(usize, usize)>,
    ord: Seq<usize>,
    crit: Seq<Seq<char>>,
    r: GraphLayout,
)
    requires
        layout_ok(tasks, edges, ord, crit, r),
    ensures
        forall|g: int| 0 <= g < r.nodes@.len() ==> (#[trigger] r.nodes@[g]).index_in_layer < r.max_nodes_in_layer,
        r.nodes@.len() > 0 ==> exists|g: int| 0 <= g < r.nodes@.len()
            && (#[trigger] r.nodes@[g]).index_in_layer + 1 == r.max_nodes_in_layer,
{
    let layer = choose|layer: Seq<usize>| layering_ok(edges, ord, layer) && layout_with_layers(tasks, edges, ord, layer, crit, r);
    let count = max_layer(ord, layer) + 1;
    let ws = layered_order(ord, layer, count);
    lemma_max_layer_size(ord, layer, count);
    assert forall|g: int| 0 <= g < r.nodes@.len() implies (#[trigger] r.nodes@[g]).index_in_layer < r.max_nodes_in_layer by {
        lemma_in_block(ord, layer, count, g);
        let l = layer[ws[g] as int] as int;
        assert(node_matches(tasks[ws[g] as int], layer[ws[g] as int],
            g - layered_order(ord, layer, l).len(), crit, r.nodes@[g]));
        assert(layer_members(ord, layer, l).len() <= max_layer_size(ord, layer, count));
    }
    if r.nodes@.len() > 0 {
        lemma_in_block(ord, layer, count, 0);
        let l0 = layer[ws[0] as int] as int;
        assert(layer_members(ord, layer, l0).len() <= max_layer_size(ord, layer, count));
        let l = choose|l: int| 0 <= l < count && #[trigger] layer_members(ord, layer, l).len() == max_layer_size(ord, layer, count);
        let m = layer_members(ord, layer, l);
        let j = m.len() - 1;
        lemma_block_entry(ord, layer, count, l, j);
        let g = layered_order(ord, layer, l).len() + j;
        lemma_members_props(ord, layer, l);
        assert(ws[g] == m[j]);
        assert(layer[ws[g] as int] == l);
        assert(node_matches(tasks[ws[g] as int], layer[ws[g] as int],
            g - layered_order(ord, layer, l).len(), crit, r.nodes@[g]));
        assert(r.nodes@[g].index_in_layer + 1 == r.max_nodes_in_layer);
    }
}

proof fn lemma_layers_below_filled(n: nat, edges: Seq<(usize, usize)>, ord: Seq<usize>, layer: Seq<usize>, x: usize, l: int)
    requires
        edges_in_range(edges, n),
        is_topo_order(n, edges, ord),
        layering_ok(edges, ord, layer),
        ord.contains(x),
        0 <= l <= layer[x as int],
    ensures
        exists|i: int| 0 <= i < ord.len() && layer[#[trigger] ord[i] as int] == l,
    decreases layer[x as int] - l,
{
    let i = choose|i: int| 0 <= i < ord.len() && ord[i] == x;
    if l == layer[x as int] {
        assert(layer[ord[i] as int] == l);
    } else {
        assert(layer[ord[i] as int] != 0);
        let p = choose|p: usize| #[trigger] has_edge(edges, p, ord[i]) && layer[p as int] + 1 == layer[ord[i] as int];
        let e = choose|e: int| 0 <= e < edges.len() && edges[e] == (p, ord[i]);
        assert(edges[e].0 < n);
        assert(ord.contains(p));
        lemma_layers_below_filled(n, edges, ord, layer, p, l);
    }
}

proof fn lemma_nonempty_layers_all(ord: Seq<usize>, layer: Seq<usize>, c: int)
    requires
        c >= 0,
        forall|l: int| 0 <= l < c ==> #[trigger] layer_members(ord, layer, l).len() > 0,
    ensures
        nonempty_layers(ord, layer, c) == c,
    decreases c,
{
    if c > 0 {
        lemma_nonempty_layers_all(ord, layer, c - 1);
        assert(layer_members(ord, layer, c - 1).len() > 0);
    }
}

/// Some node of the layout sits in layer `l`.
pub open spec fn layer_used(r: GraphLayout, l: int) -> bool {
    exists|g: int| 0 <= g < r.nodes@.len() && (#[trigger] r.nodes@[g]).layer == l
}

/// A layout uses the layers `0..layer_count` and leaves none of them empty:
/// every node's layer is below the layer count, when there are nodes every
/// one of those layers holds a node, and without nodes there are no layers.
pub proof fn lemma_layout_layers_contiguous(
    tasks: Seq<Task>,
    edges: Seq<(usize, usize)>,
    ord: Seq<usize>,
    crit: Seq<Seq<char>>,
    r: GraphLayout,
)
    requires
        layout_ok(tasks, edges, ord, crit, r),
        edges_in_range(edges, tasks.len()),
        is_topo_order(tasks.len(), edges, ord),
    ensures
        forall|g: int| 0 <= g < r.nodes@.len() ==> (#[trigger] r.nodes@[g]).layer < r.layer_count,
        r.nodes@.len() > 0 ==> forall|l: int| 0 <= l < r.layer_count ==> #[trigger] layer_used(r, l),
        r.nodes@.len() == 0 ==> r.layer_count == 0,
{
    let layer = choose|layer: Seq<usize>| layering_ok(edges, ord, layer) && layout_with_layers(tasks, edges, ord, layer, crit, r);
    let count = max_layer(ord, layer) + 1;
    let ws = layered_order(ord, layer, count);
    let n = tasks.len();
    lemma_max_layer(ord, layer);
    if ord.len() > 0 {
        let top = if max_layer(ord, layer) == 0 {
            ord[0]
        } else {
            let i = choose|i: int| 0 <= i < ord.len() && layer[#[trigger] ord[i] as int] == max_layer(ord, layer);
            ord[i]
        };
        assert(ord.contains(top));
        assert forall|l: int| 0 <= l < count implies #[trigger] layer_members(ord, layer, l).len() > 0 by {
            lemma_layers_below_filled(n, edges, ord, layer, top, l);
            let i = choose|i: int| 0 <= i < ord.len() && layer[#[trigger] ord[i] as int] == l;
            lemma_members_contains(ord, layer, l, ord[i]);
        }
        lemma_nonempty_layers_all(ord, layer, count);
        assert(r.layer_count == count);
        assert forall|l: int| 0 <= l < r.layer_count implies #[trigger] layer_used(r, l) by {
            assert(layer_members(ord, layer, l).len() > 0);
            lemma_block_entry(ord, layer, count, l, 0);
            let g = layered_order(ord, layer, l).len() as int;
            lemma_members_props(ord, layer, l);
            assert(layer[ws[g] as int] == l);
            assert(node_matches(tasks[ws[g] as int], layer[ws[g] as int],
                g - layered_order(ord, layer, l).len(), crit, r.nodes@[g]));
        }
    } else {
        assert(max_layer(ord, layer) == 0);
        assert(layer_members(ord, layer, 0) =~= Seq::<usize>::empty());
        assert(nonempty_layers(ord, layer, 0) == 0);
        assert(nonempty_layers(ord, layer, 1) == 0);
        lemma_layered_props(ord, layer, count);
        if ws.len() > 0 {
            assert(ord.contains(ws[0]));
        }
    }
    assert forall|g: int| 0 <= g < r.nodes@.len() implies (#[trigger] r.nodes@[g]).layer < r.layer_count by {
        lemma_in_block(ord, layer, count, g);
        let l = layer[ws[g] as int] as int;
        assert(node_matches(tasks[ws[g] as int], layer[ws[g] as int],
            g - layered_order(ord, layer, l).len(), crit, r.nodes@[g]));
        lemma_layered_props(ord, layer, count);
        assert(ord.contains(ws[g]));
    }
}

} // verus!
