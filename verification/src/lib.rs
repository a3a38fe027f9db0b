//! Activity-on-edge project networks: building a task graph from a project
//! description, scheduling it by the critical path method, and laying it out
//! in layers for drawing.

pub mod graph;
pub mod aoe;
pub mod critical_path;
pub mod layout;
pub mod mock;
pub mod session;
pub mod edit;
pub mod text;

pub use aoe::{AoeNet, Task, Dependency, ProjectData, AoeError};
pub use critical_path::{compute_critical_path, CriticalPathResult, TaskSchedule};

use vstd::prelude::*;
use crate::aoe::{build_outcome, first_unknown, task_ids, dep_edges, node_range};
use crate::graph::{petgraph_toposort, has_cycle, is_topo_order, on_cycle};
use crate::critical_path::{result_ok, string_views, critical_ids, lemma_schedule_unique};
use crate::aoe::{lemma_last_index, lemma_first_unknown_none};
use crate::graph::edges_in_range;
use crate::layout::{GraphLayout, compute_layout, layout_ok};

verus! {

/// What scheduling a project gives: a dependency on an unknown task is
/// reported first, then a cycle, at the task on it where the topological
/// sort found it; otherwise the critical path schedule in the topological
/// order that `petgraph` picks.
pub open spec fn schedule_outcome(tasks: Seq<Task>, deps: Seq<Dependency>, r: Result<CriticalPathResult, AoeError>) -> bool {
    let ids = task_ids(tasks);
    let edges = dep_edges(ids, deps);
    match first_unknown(ids, deps) {
        Some(x) => r matches Err(AoeError::UnknownTask(y)) && y@ == x,
        None => match petgraph_toposort(node_range(tasks.len()), edges) {
            Err(c) => r matches Err(AoeError::CycleDetected { node }) && c < ids.len() && node@ == ids[c as int]
                && on_cycle(edges, c),
            Ok(ord) => r matches Ok(res) && is_topo_order(tasks.len(), edges, ord) && result_ok(tasks, edges, ord, res),
        },
    }
}

/// Builds the project's network and schedules it; see `schedule_outcome`.
/// It fails exactly when a dependency names no task or the dependencies
/// form a cycle.
pub fn compute_critical_path_from_project(data: ProjectData) -> (r: Result<CriticalPathResult, AoeError>)
    requires
        data.tasks.len() < u32::MAX,
        data.dependencies.len() < u32::MAX,
    ensures
        schedule_outcome(data.tasks@, data.dependencies@, r),
        r is Ok <==> (first_unknown(task_ids(data.tasks@), data.dependencies@) is None
            && !has_cycle(dep_edges(task_ids(data.tasks@), data.dependencies@))),
{
    let ghost tasks = data.tasks@;
    let net = match data.into_net() {
        Ok(net) => net,
        Err(e) => return Err(e),
    };
    proof {
        assert(net.nodes() =~= node_range(tasks.len()));
    }
    compute_critical_path(&net)
}


/// `lay` lays out the project's network in the topological order that
/// `petgraph` picks, marking the critical tasks of `res`.
pub open spec fn planned_layout(tasks: Seq<Task>, deps: Seq<Dependency>, res: CriticalPathResult, lay: GraphLayout) -> bool {
    let edges = dep_edges(task_ids(tasks), deps);
    exists|ord: Seq<usize>| #[trigger] petgraph_toposort(node_range(tasks.len()), edges) == Ok::<Seq<usize>, usize>(ord)
        && layout_ok(tasks, edges, ord, string_views(res.critical_path@), lay)
}

/// Schedules a project and lays it out: the schedule as
/// `compute_critical_path_from_project` gives it, and the layout of the
/// network in the same topological order with the critical tasks marked.
pub fn plan_project(data: &ProjectData) -> (r: Result<(CriticalPathResult, GraphLayout), AoeError>)
    requires
        data.tasks.len() < u32::MAX,
        data.dependencies.len() < u32::MAX,
    ensures
        r matches Err(e) ==> schedule_outcome(data.tasks@, data.dependencies@, Err(e)),
        r matches Ok(p) ==> schedule_outcome(data.tasks@, data.dependencies@, Ok(p.0)) && planned_layout(data.tasks@, data.dependencies@, p.0, p.1),
        r is Ok <==> (first_unknown(task_ids(data.tasks@), data.dependencies@) is None
            && !has_cycle(dep_edges(task_ids(data.tasks@), data.dependencies@))),
{
    let ghost tasks = data.tasks@;
    let result = match compute_critical_path_from_project(data.copy()) {
        Ok(result) => result,
        Err(e) => return Err(e),
    };
    let net = match data.copy().into_net() {
        Ok(net) => net,
        Err(e) => {
            proof {
                assert(false);
            }
            return Err(e);
        },
    };
    proof {
        assert(net.nodes() =~= node_range(tasks.len()));
    }
    let layout = compute_layout(&net, &result);
    proof {
        let ord = choose|ord: Seq<usize>| petgraph_toposort(net.nodes(), net.edges()) == Ok::<Seq<usize>, usize>(ord)
            && is_topo_order(net.tasks@.len(), net.edges(), ord)
            && layout_ok(net.tasks@, net.edges(), ord, string_views(result.critical_path@), layout);
        assert(petgraph_toposort(node_range(tasks.len()), dep_edges(task_ids(tasks), data.dependencies@)) == Ok::<Seq<usize>, usize>(ord));
        assert(planned_layout(tasks, data.dependencies@, result, layout));
    }
    Ok((result, layout))
}

/// The fields of a schedule entry, with its strings as character sequences.
pub open spec fn entry_view(e: TaskSchedule) -> (Seq<char>, Seq<char>, i64, i128, i128, i128, i128, i128, bool) {
    (e.task_id@, e.task_name@, e.duration, e.earliest_start, e.earliest_finish, e.latest_start, e.latest_finish, e.slack,
        e.is_critical)
}

/// The outcome of scheduling, with its strings as character sequences: the
/// entries, the critical path and the duration; or the kind of error
/// (0 cycle, 1 unknown task, 2 reading, 3 parsing) and its text.
pub open spec fn outcome_view(r: Result<CriticalPathResult, AoeError>) -> Result<
    (Seq<(Seq<char>, Seq<char>, i64, i128, i128, i128, i128, i128, bool)>, Seq<Seq<char>>, i128),
    (int, Seq<char>),
> {
    match r {
        Ok(res) => Ok((res.schedules@.map_values(|e: TaskSchedule| entry_view(e)), string_views(res.critical_path@), res.project_duration)),
        Err(AoeError::CycleDetected { node }) => Err((0, node@)),
        Err(AoeError::UnknownTask(id)) => Err((1, id@)),
        Err(AoeError::IoError(m)) => Err((2, m@)),
        Err(AoeError::ParseError(m)) => Err((3, m@)),
    }
}

proof fn lemma_critical_ids_agree(s1: Seq<TaskSchedule>, s2: Seq<TaskSchedule>)
    requires
        s1.map_values(|e: TaskSchedule| entry_view(e)) == s2.map_values(|e: TaskSchedule| entry_view(e)),
    ensures
        critical_ids(s1) == critical_ids(s2),
    decreases s1.len(),
{
    let v1 = s1.map_values(|e: TaskSchedule| entry_view(e));
    let v2 = s2.map_values(|e: TaskSchedule| entry_view(e));
    assert(s1.len() == v1.len() && v2.len() == s2.len());
    if s1.len() > 0 {
        let n = s1.len() - 1;
        let w1 = s1.drop_last().map_values(|e: TaskSchedule| entry_view(e));
        let w2 = s2.drop_last().map_values(|e: TaskSchedule| entry_view(e));
        assert forall|i: int| 0 <= i < n implies #[trigger] w1[i] == w2[i] by {
            assert(v1[i] == v2[i]);
        }
        assert(w1 =~= w2);
        lemma_critical_ids_agree(s1.drop_last(), s2.drop_last());
        assert(v1[n] == v2[n]);
    }
}

/// Scheduling is deterministic: any two outcomes that both meet
/// `schedule_outcome` for the same project are the same, up to the identity
/// of their strings. So the schedule that `generate_mock_project` gives is the
/// one that `compute_critical_path_from_project` gives on its project.
pub proof fn lemma_schedule_outcome_unique(
    tasks: Seq<Task>,
    deps: Seq<Dependency>,
    r1: Result<CriticalPathResult, AoeError>,
    r2: Result<CriticalPathResult, AoeError>,
)
    requires
        schedule_outcome(tasks, deps, r1),
        schedule_outcome(tasks, deps, r2),
    ensures
        outcome_view(r1) == outcome_view(r2),
{
    let ids = task_ids(tasks);
    let edges = dep_edges(ids, deps);
    if first_unknown(ids, deps) is None {
        if let Ok(ord) = petgraph_toposort(node_range(tasks.len()), edges) {
            let res1 = r1->Ok_0;
            let res2 = r2->Ok_0;
            lemma_first_unknown_none(ids, deps);
            assert forall|k: int| 0 <= k < edges.len() implies (#[trigger] edges[k]).0 < tasks.len() && edges[k].1 < tasks.len() by {
                lemma_last_index(ids, deps[k].from@);
                lemma_last_index(ids, deps[k].to@);
            }
            assert(edges_in_range(edges, tasks.len()));
            let s1 = res1.schedules@;
            let s2 = res2.schedules@;
            lemma_schedule_unique(tasks, edges, ord, s1, res1.project_duration as int, ord, s2, res2.project_duration as int);
            let v1 = s1.map_values(|e: TaskSchedule| entry_view(e));
            let v2 = s2.map_values(|e: TaskSchedule| entry_view(e));
            assert forall|i: int| 0 <= i < s1.len() implies #[trigger] v1[i] == v2[i] by {
                assert(crate::critical_path::entry_matches(tasks[ord[i] as int], s1[i]));
                assert(crate::critical_path::entry_matches(tasks[ord[i] as int], s2[i]));
                assert(s1[i].earliest_start == s2[i].earliest_start);
            }
            assert(v1 =~= v2);
            lemma_critical_ids_agree(s1, s2);
        }
    }
}

} // verus!
