//! Tasks, dependencies and the activity network built from them.

use vstd::prelude::*;
use crate::graph::{
    TaskGraph, graph_nodes, graph_edges, edges_in_range, has_cycle, has_edge, is_topo_order, petgraph_toposort,
    on_cycle, out_neighbors, in_neighbors, graph_new, graph_add_node, graph_add_edge, graph_node_weight,
    graph_neighbors, graph_toposort, lemma_topo_order_acyclic, lemma_in_neighbors, lemma_out_neighbors,
};

verus! {

/// One task of a project. Its three duration estimates are counted in
/// milli-days (thousandths of a day), so that every schedule is computed in
/// exact integer arithmetic; they may be negative.
#[derive(Debug, Clone, PartialEq, Eq)]
pub struct Task {
    pub id: String,
    pub name: String,
    pub duration_optimistic: i32,
    pub duration_normal: i32,
    pub duration_pessimistic: i32,
}

/// The PERT estimate `(optimistic + 4 * normal + pessimistic) / 6`, counted in
/// sixths of a milli-day so that it stays an integer.
pub open spec fn spec_pert(t: Task) -> int {
    t.duration_optimistic + 4 * t.duration_normal + t.duration_pessimistic
}

/// The PERT estimate weighs the normal estimate four times and the other two
/// once: between any two tasks it changes by the change of the optimistic and
/// pessimistic estimates plus four times the change of the normal one. A task
/// whose three estimates agree takes six times that estimate (in sixths of a
/// milli-day), and with optimistic <= normal <= pessimistic the estimate lies
/// between six times the optimistic and six times the pessimistic one.
pub proof fn lemma_pert_weights(t: Task, u: Task)
    ensures
        spec_pert(t) - spec_pert(u) == (t.duration_optimistic - u.duration_optimistic)
            + 4 * (t.duration_normal - u.duration_normal) + (t.duration_pessimistic - u.duration_pessimistic),
        t.duration_optimistic == t.duration_normal && t.duration_normal == t.duration_pessimistic
            ==> spec_pert(t) == 6 * t.duration_normal,
        t.duration_optimistic <= t.duration_normal && t.duration_normal <= t.duration_pessimistic
            ==> 6 * t.duration_optimistic <= spec_pert(t) && spec_pert(t) <= 6 * t.duration_pessimistic,
{
}

impl Task {
    /// The PERT estimate of the task's duration, in sixths of a milli-day.
    pub fn pert(&self) -> (r: i64)
        ensures
            r == spec_pert(*self),
    {
        self.duration_optimistic as i64 + 4 * (self.duration_normal as i64)
            + self.duration_pessimistic as i64
    }

    /// The PERT spread `(optimistic - pessimistic) / 6`, in sixths of a
    /// milli-day; it is negative when the optimistic estimate is the smaller.
    pub fn std_dev(&self) -> (r: i64)
        ensures
            r == self.duration_optimistic - self.duration_pessimistic,
    {
        self.duration_optimistic as i64 - self.duration_pessimistic as i64
    }
}

/// `to` cannot start before `from` has finished.
#[derive(Debug, Clone, PartialEq, Eq)]
pub struct Dependency {
    pub from: String,
    pub to: String,
}

/// Why a project could not be turned into a network or scheduled.
#[derive(Debug, Clone, PartialEq, Eq)]
pub enum AoeError {
    CycleDetected { node: String },
    UnknownTask(String),
    IoError(String),
    ParseError(String),
}

/// The two ends of each dependency, in order.
pub open spec fn dep_views(deps: Seq<Dependency>) -> Seq<(Seq<char>, Seq<char>)> {
    deps.map_values(|d: Dependency| (d.from@, d.to@))
}

/// The ids of a task list, in order.
pub open spec fn task_ids(tasks: Seq<Task>) -> Seq<Seq<char>> {
    tasks.map_values(|t: Task| t.id@)
}

/// The position of the last id equal to `id`, or -1 when there is none.
pub open spec fn last_index(ids: Seq<Seq<char>>, id: Seq<char>) -> int
    decreases ids.len(),
{
    if ids.len() == 0 {
        -1
    } else if ids.last() == id {
        ids.len() - 1
    } else {
        last_index(ids.drop_last(), id)
    }
}

pub proof fn lemma_last_index(ids: Seq<Seq<char>>, id: Seq<char>)
    ensures
        -1 <= last_index(ids, id) < ids.len(),
        last_index(ids, id) >= 0 ==> ids[last_index(ids, id)] == id,
        last_index(ids, id) == -1 <==> !ids.contains(id),
        forall|j: int| last_index(ids, id) < j < ids.len() ==> ids[j] != id,
    decreases ids.len(),
{
    if ids.len() > 0 {
        lemma_last_index(ids.drop_last(), id);
        if ids.last() != id {
            assert forall|j: int| last_index(ids, id) < j < ids.len() implies ids[j] != id by {
                if j < ids.len() - 1 {
                    assert(ids.drop_last()[j] == ids[j]);
                }
            }
            if ids.contains(id) {
                let k = choose|k: int| 0 <= k < ids.len() && ids[k] == id;
                assert(ids.drop_last()[k] == id);
            }
            if ids.drop_last().contains(id) {
                let k = choose|k: int| 0 <= k < ids.len() - 1 && ids.drop_last()[k] == id;
                assert(ids[k] == id);
            }
        } else {
            assert(ids[ids.len() - 1] == id);
        }
    }
}

/// The id lookup table of a network: each id of `ids` appears once as a
/// key, mapped to the last position that holds it (a later task with the
/// same id replaces an earlier one).
pub open spec fn index_map_wf(entries: Seq<(String, usize)>, ids: Seq<Seq<char>>) -> bool {
    &&& forall|k: int|
        0 <= k < entries.len() ==> (#[trigger] entries[k]).1 as int == last_index(ids, entries[k].0@)
            && ids.contains(entries[k].0@)
    &&& forall|k1: int, k2: int|
        0 <= k1 < entries.len() && 0 <= k2 < entries.len() && k1 != k2 ==> (#[trigger] entries[k1]).0@
            != (#[trigger] entries[k2]).0@
    &&& forall|i: int|
        0 <= i < ids.len() ==> exists|k: int| 0 <= k < entries.len() && (#[trigger] entries[k]).0@ == #[trigger] ids[i]
}

/// Looks `id` up in an id table: the node that the table maps it to.
pub(crate) fn lookup_index(entries: &Vec<(String, usize)>, id: &String, Ghost(ids): Ghost<Seq<Seq<char>>>) -> (r: Option<usize>)
    requires
        index_map_wf(entries@, ids),
    ensures
        r matches Some(i) ==> i as int == last_index(ids, id@),
        r is None ==> last_index(ids, id@) == -1,
{
    let mut k: usize = 0;
    while k < entries.len()
        invariant
            k <= entries.len(),
            index_map_wf(entries@, ids),
            forall|j: int| 0 <= j < k ==> (#[trigger] entries@[j]).0@ != id@,
        decreases entries.len() - k,
    {
        if entries[k].0 == *id {
            return Some(entries[k].1);
        }
        k += 1;
    }
    proof {
        lemma_last_index(ids, id@);
        if ids.contains(id@) {
            let i = choose|i: int| 0 <= i < ids.len() && ids[i] == id@;
            let kk = choose|kk: int| 0 <= kk < entries.len() && (#[trigger] entries@[kk]).0@ == ids[i];
            assert(entries@[kk].0@ != id@);
        }
    }
    None
}

proof fn lemma_push_id(ids: Seq<Seq<char>>, id: Seq<char>)
    ensures
        forall|x: Seq<char>| x != id ==> last_index(ids.push(id), x) == last_index(ids, x),
        last_index(ids.push(id), id) == ids.len(),
        forall|x: Seq<char>| ids.contains(x) ==> ids.push(id).contains(x),
        ids.push(id).contains(id),
{
    let ids2 = ids.push(id);
    assert(ids2.drop_last() =~= ids);
    assert forall|x: Seq<char>| ids.contains(x) implies ids2.contains(x) by {
        let i = choose|i: int| 0 <= i < ids.len() && ids[i] == x;
        assert(ids2[i] == x);
    }
    assert(ids2[ids.len() as int] == id);
}

fn insert_index(entries: &mut Vec<(String, usize)>, id: String, idx: usize, Ghost(ids): Ghost<Seq<Seq<char>>>)
    requires
        index_map_wf(old(entries)@, ids),
        idx == ids.len(),
    ensures
        index_map_wf(final(entries)@, ids.push(id@)),
{
    let ghost ids2 = ids.push(id@);
    let mut k: usize = 0;
    while k < entries.len()
        invariant
            k <= entries.len(),
            entries@ == old(entries)@,
            index_map_wf(entries@, ids),
            ids2 == ids.push(id@),
            idx == ids.len(),
            forall|j: int| 0 <= j < k ==> (#[trigger] entries@[j]).0@ != id@,
        decreases entries.len() - k,
    {
        if entries[k].0 == id {
            let ghost before = entries@;
            entries.set(k, (id, idx));
            proof {
                lemma_push_id(ids, id@);
                assert forall|i: int| 0 <= i < ids2.len() implies exists|kk: int|
                    0 <= kk < entries@.len() && (#[trigger] entries@[kk]).0@ == #[trigger] ids2[i] by {
                    if i < ids.len() {
                        let kk = choose|kk: int| 0 <= kk < before.len() && (#[trigger] before[kk]).0@ == ids[i];
                        assert(entries@[kk].0@ == before[kk].0@);
                    } else {
                        assert(entries@[k as int].0@ == ids2[i]);
                    }
                }
            }
            return;
        }
        k += 1;
    }
    let ghost before = entries@;
    entries.push((id, idx));
    proof {
        lemma_push_id(ids, id@);
        assert forall|i: int| 0 <= i < ids2.len() implies exists|kk: int|
            0 <= kk < entries@.len() && (#[trigger] entries@[kk]).0@ == #[trigger] ids2[i] by {
            if i < ids.len() {
                let kk = choose|kk: int| 0 <= kk < before.len() && (#[trigger] before[kk]).0@ == ids[i];
                assert(entries@[kk] == before[kk]);
            } else {
                assert(entries@[before.len() as int].0@ == ids2[i]);
            }
        }
    }
}


/// The nodes `0..n`, each the weight of the node of the same index.
pub open spec fn node_range(n: nat) -> Seq<usize> {
    Seq::new(n, |i: int| i as usize)
}

/// The endpoint of `d` that names no task, the source first.
pub open spec fn endpoint_unknown(ids: Seq<Seq<char>>, d: Dependency) -> Option<Seq<char>> {
    if !ids.contains(d.from@) {
        Some(d.from@)
    } else if !ids.contains(d.to@) {
        Some(d.to@)
    } else {
        None
    }
}

/// The first unknown endpoint among the dependencies, in order.
pub open spec fn first_unknown(ids: Seq<Seq<char>>, deps: Seq<Dependency>) -> Option<Seq<char>>
    decreases deps.len(),
{
    if deps.len() == 0 {
        None
    } else {
        match first_unknown(ids, deps.drop_last()) {
            Some(x) => Some(x),
            None => endpoint_unknown(ids, deps.last()),
        }
    }
}

/// The graph edges of the dependencies: each joins the last tasks that
/// carry its two ids.
pub open spec fn dep_edges(ids: Seq<Seq<char>>, deps: Seq<Dependency>) -> Seq<(usize, usize)> {
    deps.map_values(|d: Dependency| (last_index(ids, d.from@) as usize, last_index(ids, d.to@) as usize))
}

proof fn lemma_first_unknown_prefix(ids: Seq<Seq<char>>, deps: Seq<Dependency>, m: int)
    requires
        0 <= m <= deps.len(),
        first_unknown(ids, deps.take(m)) is Some,
    ensures
        first_unknown(ids, deps) == first_unknown(ids, deps.take(m)),
    decreases deps.len(),
{
    if m < deps.len() {
        assert(deps.drop_last().take(m) =~= deps.take(m));
        lemma_first_unknown_prefix(ids, deps.drop_last(), m);
    } else {
        assert(deps.take(m) =~= deps);
    }
}

pub(crate) proof fn lemma_first_unknown_none(ids: Seq<Seq<char>>, deps: Seq<Dependency>)
    requires
        first_unknown(ids, deps) is None,
    ensures
        forall|k: int| 0 <= k < deps.len() ==> ids.contains((#[trigger] deps[k]).from@) && ids.contains(deps[k].to@),
    decreases deps.len(),
{
    if deps.len() > 0 {
        lemma_first_unknown_none(ids, deps.drop_last());
        assert forall|k: int| 0 <= k < deps.len() implies ids.contains((#[trigger] deps[k]).from@) && ids.contains(deps[k].to@) by {
            if k < deps.len() - 1 {
                assert(deps.drop_last()[k] == deps[k]);
            }
        }
    }
}

/// Dependency `d` leads from a task of `ids` to a later one.
pub open spec fn points_forward(ids: Seq<Seq<char>>, d: Dependency) -> bool {
    exists|i: int, j: int| #![trigger ids[i], ids[j]] 0 <= i < j < ids.len() && ids[i] == d.from@ && ids[j] == d.to@
}

proof fn lemma_distinct_last_index(ids: Seq<Seq<char>>, i: int)
    requires
        ids.no_duplicates(),
        0 <= i < ids.len(),
    ensures
        last_index(ids, ids[i]) == i,
{
    lemma_last_index(ids, ids[i]);
    assert(ids.contains(ids[i]));
}

pub(crate) proof fn lemma_all_known(ids: Seq<Seq<char>>, deps: Seq<Dependency>)
    requires
        forall|k: int| 0 <= k < deps.len() ==> ids.contains((#[trigger] deps[k]).from@) && ids.contains(deps[k].to@),
    ensures
        first_unknown(ids, deps) is None,
    decreases deps.len(),
{
    if deps.len() > 0 {
        assert forall|k: int| 0 <= k < deps.drop_last().len() implies ids.contains((#[trigger] deps.drop_last()[k]).from@)
            && ids.contains(deps.drop_last()[k].to@) by {
            assert(deps.drop_last()[k] == deps[k]);
        }
        lemma_all_known(ids, deps.drop_last());
        assert(deps.last() == deps[deps.len() - 1]);
    }
}

/// A project whose task ids are distinct and whose every dependency leads
/// from a task to a later one in the task list is accepted: no dependency
/// names an unknown task, and the dependencies form no cycle.
pub proof fn lemma_forward_dependencies_accepted(ids: Seq<Seq<char>>, deps: Seq<Dependency>)
    requires
        ids.len() <= usize::MAX,
        ids.no_duplicates(),
        forall|k: int| 0 <= k < deps.len() ==> points_forward(ids, #[trigger] deps[k]),
    ensures
        first_unknown(ids, deps) is None,
        !has_cycle(dep_edges(ids, deps)),
{
    let n = ids.len();
    let edges = dep_edges(ids, deps);
    assert forall|k: int| 0 <= k < deps.len() implies ids.contains((#[trigger] deps[k]).from@) && ids.contains(deps[k].to@)
        && (edges[k].0 as int) < (edges[k].1 as int) && (edges[k].1 as int) < n by {
        assert(points_forward(ids, deps[k]));
        let (i, j) = choose|i: int, j: int| #![trigger ids[i], ids[j]] 0 <= i < j < ids.len() && ids[i] == deps[k].from@
            && ids[j] == deps[k].to@;
        lemma_distinct_last_index(ids, i);
        lemma_distinct_last_index(ids, j);
    }
    lemma_all_known(ids, deps);
    let ord = node_range(n);
    assert(edges_in_range(edges, n));
    assert forall|a: int, b: int| 0 <= a < ord.len() && 0 <= b < ord.len() && has_edge(edges, #[trigger] ord[a], #[trigger] ord[b])
        implies a < b by {
        let k = choose|k: int| 0 <= k < edges.len() && edges[k] == (ord[a], ord[b]);
    }
    assert forall|v: usize| v < n implies #[trigger] ord.contains(v) by {
        assert(ord[v as int] == v);
    }
    assert(ord.no_duplicates());
    lemma_topo_order_acyclic(n, edges, ord);
}

/// What building a network from `tasks` and `deps` gives: the first
/// dependency endpoint that names no task is reported; otherwise a cycle
/// found by the topological sort is reported at its node, which lies on the
/// cycle; otherwise the net holds the tasks and one edge per dependency, in
/// order.
pub open spec fn build_outcome(tasks: Seq<Task>, deps: Seq<Dependency>, r: Result<AoeNet, AoeError>) -> bool {
    let ids = task_ids(tasks);
    match first_unknown(ids, deps) {
        Some(x) => r matches Err(AoeError::UnknownTask(y)) && y@ == x,
        None => match petgraph_toposort(node_range(tasks.len()), dep_edges(ids, deps)) {
            Err(c) => r matches Err(AoeError::CycleDetected { node }) && c < tasks.len() && node@ == ids[c as int]
                && on_cycle(dep_edges(ids, deps), c),
            Ok(_) => r matches Ok(net) && net.wf() && net.tasks@ == tasks && net.edges() == dep_edges(ids, deps),
        },
    }
}

/// A project network: the task graph, the table from task ids to nodes, and
/// the tasks that the nodes stand for.
pub struct AoeNet {
    pub graph: TaskGraph,
    pub index_map: Vec<(String, usize)>,
    pub tasks: Vec<Task>,
}

impl AoeNet {
    /// The node weights of the graph, in node order.
    pub open spec fn nodes(&self) -> Seq<usize> {
        graph_nodes(self.graph)
    }

    /// The edges of the graph, in the order in which they were added.
    pub open spec fn edges(&self) -> Seq<(usize, usize)> {
        graph_edges(self.graph)
    }

    /// Node `i` stands for task `i`, every edge joins two nodes, and the id
    /// table maps each id to the last task that carries it.
    pub open spec fn wf(&self) -> bool {
        &&& self.nodes().len() == self.tasks@.len()
        &&& self.tasks@.len() < u32::MAX
        &&& forall|i: int| 0 <= i < self.nodes().len() ==> #[trigger] self.nodes()[i] == i
        &&& edges_in_range(self.edges(), self.tasks@.len())
        &&& index_map_wf(self.index_map@, task_ids(self.tasks@))
    }

    /// Builds the network of `tasks` with one edge per dependency.
    fn build(tasks: Vec<Task>, deps: Vec<Dependency>) -> (r: Result<Self, AoeError>)
        requires
            tasks.len() < u32::MAX,
            deps.len() < u32::MAX,
        ensures
            build_outcome(tasks@, deps@, r),
            r is Ok <==> (first_unknown(task_ids(tasks@), deps@) is None
                && !has_cycle(dep_edges(task_ids(tasks@), deps@))),
    {
        let ghost ids = task_ids(tasks@);
        let n = tasks.len();
        let mut graph = graph_new();
        let mut index_map: Vec<(String, usize)> = Vec::new();
        let mut i: usize = 0;
        while i < n
            invariant
                n == tasks.len() < u32::MAX,
                i <= n,
                ids == task_ids(tasks@),
                graph_nodes(graph) =~= node_range(i as nat),
                graph_edges(graph) == Seq::<(usize, usize)>::empty(),
                index_map_wf(index_map@, ids.take(i as int)),
            decreases n - i,
        {
            let idx = graph_add_node(&mut graph, i);
            let id = tasks[i].id.clone();
            proof {
                assert(ids.take(i as int).push(id@) =~= ids.take(i + 1));
            }
            insert_index(&mut index_map, id, idx, Ghost(ids.take(i as int)));
            i += 1;
        }
        proof {
            assert(ids.take(n as int) =~= ids);
        }
        let mut j: usize = 0;
        while j < deps.len()
            invariant
                n == tasks.len() < u32::MAX,
                deps.len() < u32::MAX,
                j <= deps.len(),
                ids == task_ids(tasks@),
                graph_nodes(graph) =~= node_range(n as nat),
                graph_edges(graph) =~= dep_edges(ids, deps@.take(j as int)),
                index_map_wf(index_map@, ids),
                first_unknown(ids, deps@.take(j as int)) is None,
            decreases deps.len() - j,
        {
            let ghost pre = deps@.take(j as int);
            let ghost cur = deps@.take(j + 1);
            proof {
                assert(cur.drop_last() =~= pre);
                assert(cur.last() == deps@[j as int]);
            }
            let from = match lookup_index(&index_map, &deps[j].from, Ghost(ids)) {
                Some(f) => f,
                None => {
                    proof {
                        lemma_last_index(ids, deps@[j as int].from@);
                        lemma_first_unknown_prefix(ids, deps@, j + 1);
                    }
                    return Err(AoeError::UnknownTask(deps[j].from.clone()));
                },
            };
            let to = match lookup_index(&index_map, &deps[j].to, Ghost(ids)) {
                Some(t) => t,
                None => {
                    proof {
                        lemma_last_index(ids, deps@[j as int].from@);
                        lemma_last_index(ids, deps@[j as int].to@);
                        lemma_first_unknown_prefix(ids, deps@, j + 1);
                    }
                    return Err(AoeError::UnknownTask(deps[j].to.clone()));
                },
            };
            proof {
                lemma_last_index(ids, deps@[j as int].from@);
                lemma_last_index(ids, deps@[j as int].to@);
                assert(ids.len() == n);
            }
            graph_add_edge(&mut graph, from, to);
            proof {
                assert(dep_edges(ids, cur) =~= dep_edges(ids, pre).push((from, to)));
            }
            j += 1;
        }
        proof {
            assert(deps@.take(deps.len() as int) =~= deps@);
            lemma_first_unknown_none(ids, deps@);
            assert forall|k: int| 0 <= k < graph_edges(graph).len() implies (#[trigger] graph_edges(graph)[k]).0 < n
                && graph_edges(graph)[k].1 < n by {
                lemma_last_index(ids, deps@[k].from@);
                lemma_last_index(ids, deps@[k].to@);
            }
        }
        match graph_toposort(&graph) {
            Err(c) => {
                let w = graph_node_weight(&graph, c);
                proof {
                    assert(has_cycle(graph_edges(graph)));
                }
                Err(AoeError::CycleDetected { node: tasks[w].id.clone() })
            },
            Ok(order) => {
                proof {
                    lemma_topo_order_acyclic(n as nat, graph_edges(graph), order@);
                }
                Ok(AoeNet { graph, index_map, tasks })
            },
        }
    }

    /// The nodes in the topological order that `petgraph` picks, or the
    /// task at which it found a cycle.
    pub fn topological_order(&self) -> (r: Result<Vec<usize>, AoeError>)
        requires
            self.wf(),
        ensures
            match petgraph_toposort(self.nodes(), self.edges()) {
                Ok(ord) => r matches Ok(v) && v@ == ord,
                Err(c) => r matches Err(AoeError::CycleDetected { node }) && c < self.tasks@.len()
                    && node@ == self.tasks@[c as int].id@ && on_cycle(self.edges(), c),
            },
            r matches Ok(v) ==> is_topo_order(self.tasks@.len(), self.edges(), v@),
            r is Err ==> has_cycle(self.edges()),
    {
        match graph_toposort(&self.graph) {
            Ok(order) => Ok(order),
            Err(c) => {
                let w = graph_node_weight(&self.graph, c);
                Err(AoeError::CycleDetected { node: self.tasks[w].id.clone() })
            },
        }
    }

    /// The sources of the edges that enter `idx`, newest edge first; none
    /// when `idx` is not a node.
    pub fn predecessors(&self, idx: usize) -> (r: Vec<usize>)
        requires
            self.wf(),
        ensures
            r@ == in_neighbors(self.edges(), idx),
    {
        if idx < self.tasks.len() {
            graph_neighbors(&self.graph, idx, false)
        } else {
            proof {
                let s = in_neighbors(self.edges(), idx);
                if s.len() > 0 {
                    let x = s[0];
                    lemma_in_neighbors(self.edges(), idx, x);
                    assert(s.contains(x));
                    let e = choose|e: int| 0 <= e < self.edges().len() && self.edges()[e] == (x, idx);
                }
            }
            Vec::new()
        }
    }

    /// The targets of the edges that leave `idx`, newest edge first; none
    /// when `idx` is not a node.
    pub fn successors(&self, idx: usize) -> (r: Vec<usize>)
        requires
            self.wf(),
        ensures
            r@ == out_neighbors(self.edges(), idx),
    {
        if idx < self.tasks.len() {
            graph_neighbors(&self.graph, idx, true)
        } else {
            proof {
                let s = out_neighbors(self.edges(), idx);
                if s.len() > 0 {
                    let x = s[0];
                    lemma_out_neighbors(self.edges(), idx, x);
                    assert(s.contains(x));
                    let e = choose|e: int| 0 <= e < self.edges().len() && self.edges()[e] == (idx, x);
                }
            }
            Vec::new()
        }
    }

    /// The task that node `idx` stands for.
    pub fn task(&self, idx: usize) -> (r: &Task)
        requires
            self.wf(),
            idx < self.tasks@.len(),
        ensures
            *r == self.tasks@[idx as int],
    {
        let w = graph_node_weight(&self.graph, idx);
        &self.tasks[w]
    }
}

/// A copy of a task.
pub fn copy_task(t: &Task) -> (r: Task)
    ensures
        r == *t,
{
    Task {
        id: t.id.clone(),
        name: t.name.clone(),
        duration_optimistic: t.duration_optimistic,
        duration_normal: t.duration_normal,
        duration_pessimistic: t.duration_pessimistic,
    }
}

/// A copy of a dependency.
pub fn copy_dependency(d: &Dependency) -> (r: Dependency)
    ensures
        r == *d,
{
    Dependency { from: d.from.clone(), to: d.to.clone() }
}

/// A project as it is written down: its tasks and their dependencies.
#[derive(Debug, Clone, PartialEq, Eq)]
pub struct ProjectData {
    pub tasks: Vec<Task>,
    pub dependencies: Vec<Dependency>,
}

impl ProjectData {
    /// A copy of the project.
    pub fn copy(&self) -> (r: ProjectData)
        ensures
            r.tasks@ == self.tasks@,
            r.dependencies@ == self.dependencies@,
    {
        let mut tasks: Vec<Task> = Vec::new();
        let mut i: usize = 0;
        while i < self.tasks.len()
            invariant
                i <= self.tasks@.len(),
                tasks@ == self.tasks@.take(i as int),
            decreases self.tasks@.len() - i,
        {
            tasks.push(copy_task(&self.tasks[i]));
            proof {
                assert(tasks@ =~= self.tasks@.take(i + 1));
            }
            i += 1;
        }
        let mut deps: Vec<Dependency> = Vec::new();
        let mut j: usize = 0;
        while j < self.dependencies.len()
            invariant
                j <= self.dependencies@.len(),
                deps@ == self.dependencies@.take(j as int),
            decreases self.dependencies@.len() - j,
        {
            deps.push(copy_dependency(&self.dependencies[j]));
            proof {
                assert(deps@ =~= self.dependencies@.take(j + 1));
            }
            j += 1;
        }
        proof {
            assert(tasks@ =~= self.tasks@);
            assert(deps@ =~= self.dependencies@);
        }
        ProjectData { tasks, dependencies: deps }
    }

    /// Builds the project's network; see `build_outcome`. It is refused
    /// exactly when a dependency names no task or the dependencies form a
    /// cycle.
    pub fn into_net(self) -> (r: Result<AoeNet, AoeError>)
        requires
            self.tasks.len() < u32::MAX,
            self.dependencies.len() < u32::MAX,
        ensures
            build_outcome(self.tasks@, self.dependencies@, r),
            r is Ok <==> (first_unknown(task_ids(self.tasks@), self.dependencies@) is None
                && !has_cycle(dep_edges(task_ids(self.tasks@), self.dependencies@))),
    {
        AoeNet::build(self.tasks, self.dependencies)
    }
}

} // verus!
