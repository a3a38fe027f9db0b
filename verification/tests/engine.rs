use graph_engine::aoe::copy_task;
use graph_engine::critical_path::critical_path_for_order;
use graph_engine::layout::{compute_layout, layout_for_order};
use graph_engine::mock::{make_default_deps, make_default_tasks};
use graph_engine::{
    compute_critical_path, compute_critical_path_from_project, plan_project, AoeError, Dependency,
    ProjectData, Task,
};

fn task(id: &str, o: i32, n: i32, p: i32) -> Task {
    Task {
        id: id.to_string(),
        name: format!("task {}", id),
        duration_optimistic: o,
        duration_normal: n,
        duration_pessimistic: p,
    }
}

fn dep(from: &str, to: &str) -> Dependency {
    Dependency { from: from.to_string(), to: to.to_string() }
}

/// The preview network: ten tasks, twelve dependencies.
fn preview() -> ProjectData {
    ProjectData { tasks: make_default_tasks(), dependencies: make_default_deps() }
}

/// One day, in the sixths of a milli-day that schedules are counted in.
const DAY: i128 = 6000;

#[test]
fn test_load_preview_json() {
    let data = preview();
    assert_eq!(data.tasks.len(), 10);
    assert_eq!(data.dependencies.len(), 12);

    let t1 = &data.tasks[0];
    // 13 / 6 of a day, in sixths of a milli-day
    assert_eq!(t1.pert(), 13_000);

    let network = data.into_net().unwrap();
    assert_eq!(network.graph.node_count(), 10);
    assert_eq!(network.graph.edge_count(), 12);
}

#[test]
fn test_compute_critical_path_preview() {
    let result = compute_critical_path_from_project(preview()).unwrap();

    let expected_path = vec!["T1", "T2", "T3", "T5", "T8", "T9", "T10"];
    assert_eq!(result.critical_path, expected_path);
    assert_eq!(result.project_duration, 21 * DAY);

    let t4 = result.schedules.iter().find(|s| s.task_id == "T4").expect("T4 should exist");
    assert!(t4.slack > 0);
    assert!(!t4.is_critical);
}

#[test]
fn pert_and_spread() {
    let t = task("A", 1000, 2000, 4000);
    assert_eq!(t.pert(), 1000 + 8000 + 4000);
    assert_eq!(t.std_dev(), -3000);
    let u = task("B", 5000, 1000, 2000);
    assert_eq!(u.std_dev(), 3000);
}

#[test]
fn schedule_of_a_small_network() {
    // A(6) -> B(12) -> D(6), A -> C(6) -> D, durations in sixths
    let data = ProjectData {
        tasks: vec![task("A", 1, 1, 1), task("B", 2, 2, 2), task("C", 1, 1, 1), task("D", 1, 1, 1)],
        dependencies: vec![dep("A", "B"), dep("A", "C"), dep("B", "D"), dep("C", "D")],
    };
    let r = compute_critical_path_from_project(data).unwrap();
    assert_eq!(r.project_duration, 24);
    let get = |id: &str| r.schedules.iter().find(|s| s.task_id == id).unwrap().clone();
    let a = get("A");
    assert_eq!((a.earliest_start, a.earliest_finish, a.latest_start, a.latest_finish), (0, 6, 0, 6));
    let b = get("B");
    assert_eq!((b.earliest_start, b.earliest_finish, b.latest_start, b.latest_finish), (6, 18, 6, 18));
    let c = get("C");
    assert_eq!((c.earliest_start, c.earliest_finish, c.latest_start, c.latest_finish), (6, 12, 12, 18));
    assert_eq!(c.slack, 6);
    assert!(!c.is_critical);
    let d = get("D");
    assert_eq!((d.earliest_start, d.earliest_finish, d.latest_start, d.latest_finish), (18, 24, 18, 24));
    assert_eq!(r.critical_path, vec!["A", "B", "D"]);
    assert_eq!(r.schedules[0].task_id, "A");
    assert_eq!(r.schedules[3].task_id, "D");
}

#[test]
fn project_duration_is_latest_finish_and_sinks_end_there() {
    // two independent chains: X(6) and Y(12) -> Z(6)
    let data = ProjectData {
        tasks: vec![task("X", 1, 1, 1), task("Y", 2, 2, 2), task("Z", 1, 1, 1)],
        dependencies: vec![dep("Y", "Z")],
    };
    let r = compute_critical_path_from_project(data).unwrap();
    assert_eq!(r.project_duration, 18);
    let x = r.schedules.iter().find(|s| s.task_id == "X").unwrap();
    assert_eq!(x.latest_finish, 18);
    assert_eq!(x.slack, 12);
    assert_eq!(r.critical_path, vec!["Y", "Z"]);
}

#[test]
fn empty_project() {
    let r = compute_critical_path_from_project(ProjectData { tasks: vec![], dependencies: vec![] }).unwrap();
    assert!(r.schedules.is_empty());
    assert!(r.critical_path.is_empty());
    assert_eq!(r.project_duration, 0);
}

#[test]
fn zero_length_tasks_are_all_critical() {
    let data = ProjectData {
        tasks: vec![task("A", 0, 0, 0), task("B", 0, 0, 0)],
        dependencies: vec![dep("A", "B")],
    };
    let r = compute_critical_path_from_project(data).unwrap();
    assert_eq!(r.project_duration, 0);
    assert_eq!(r.critical_path, vec!["A", "B"]);
}

#[test]
fn unknown_task_is_reported_source_first() {
    let data = ProjectData {
        tasks: vec![task("A", 1, 1, 1)],
        dependencies: vec![dep("A", "A2"), dep("Q", "R")],
    };
    assert_eq!(compute_critical_path_from_project(data.clone()).unwrap_err(), AoeError::UnknownTask("A2".to_string()));
    let data2 = ProjectData { tasks: vec![task("A", 1, 1, 1)], dependencies: vec![dep("Q", "R")] };
    assert_eq!(data2.into_net().err(), Some(AoeError::UnknownTask("Q".to_string())));
}

#[test]
fn cycle_is_reported_at_a_task_on_it() {
    let data = ProjectData {
        tasks: vec![task("A", 1, 1, 1), task("B", 1, 1, 1), task("C", 1, 1, 1)],
        dependencies: vec![dep("A", "B"), dep("B", "C"), dep("C", "B")],
    };
    match data.into_net() {
        Err(AoeError::CycleDetected { node }) => assert!(node == "B" || node == "C"),
        other => panic!("expected a cycle, got {:?}", other.err()),
    }
}

#[test]
fn self_loop_is_a_cycle() {
    let data = ProjectData { tasks: vec![task("A", 1, 1, 1)], dependencies: vec![dep("A", "A")] };
    assert_eq!(
        compute_critical_path_from_project(data).unwrap_err(),
        AoeError::CycleDetected { node: "A".to_string() }
    );
}

#[test]
fn duplicate_ids_resolve_to_the_last_task() {
    let data = ProjectData {
        tasks: vec![task("A", 1, 1, 1), task("B", 1, 1, 1), task("A", 2, 2, 2)],
        dependencies: vec![dep("A", "B")],
    };
    let net = data.into_net().unwrap();
    assert_eq!(net.predecessors(1), vec![2]);
    assert_eq!(net.successors(0), Vec::<usize>::new());
}

#[test]
fn neighbours_newest_edge_first() {
    let data = ProjectData {
        tasks: vec![task("A", 1, 1, 1), task("B", 1, 1, 1), task("C", 1, 1, 1), task("D", 1, 1, 1)],
        dependencies: vec![dep("A", "B"), dep("A", "C"), dep("A", "D"), dep("B", "D"), dep("C", "D")],
    };
    let net = data.into_net().unwrap();
    assert_eq!(net.successors(0), vec![3, 2, 1]);
    assert_eq!(net.predecessors(3), vec![2, 1, 0]);
    assert_eq!(net.task(2).id, "C");
}

#[test]
fn topological_order_puts_sources_first() {
    let net = preview().into_net().unwrap();
    let order = net.topological_order().unwrap();
    assert_eq!(order.len(), 10);
    let pos = |v: usize| order.iter().position(|&x| x == v).unwrap();
    for d in &preview().dependencies {
        let a = net.tasks.iter().position(|t| t.id == d.from).unwrap();
        let b = net.tasks.iter().position(|t| t.id == d.to).unwrap();
        assert!(pos(a) < pos(b));
    }
}

#[test]
fn schedule_for_a_chosen_order() {
    let data = ProjectData {
        tasks: vec![task("A", 1, 1, 1), task("B", 2, 2, 2)],
        dependencies: vec![],
    };
    let net = data.into_net().unwrap();
    let r = critical_path_for_order(&net, &vec![1, 0]);
    assert_eq!(r.schedules[0].task_id, "B");
    assert_eq!(r.project_duration, 12);
    assert_eq!(r.critical_path, vec!["B"]);
    let same = compute_critical_path(&net).unwrap();
    assert_eq!(same.project_duration, 12);
}

#[test]
fn critical_path_is_non_empty_and_chains_back() {
    let r = compute_critical_path_from_project(preview()).unwrap();
    assert!(!r.critical_path.is_empty());
    let net = preview().into_net().unwrap();
    for s in r.schedules.iter().filter(|s| s.is_critical && s.earliest_start > 0) {
        let idx = net.tasks.iter().position(|t| t.id == s.task_id).unwrap();
        let ok = net.predecessors(idx).iter().any(|&p| {
            let ps = r.schedules.iter().find(|x| x.task_id == net.tasks[p].id).unwrap();
            ps.is_critical && ps.earliest_finish == s.earliest_start
        });
        assert!(ok);
    }
    for s in &r.schedules {
        assert!(s.earliest_start <= s.latest_start);
        assert!(s.latest_finish <= r.project_duration);
    }
}

#[test]
fn layout_of_the_preview() {
    let data = preview();
    let (result, layout) = plan_project(&data).unwrap();
    assert_eq!(layout.nodes.len(), 10);
    assert_eq!(layout.edges.len(), 12);
    // layers: T1 | T2 | T3 T4 T6 | T5 | T7 T8 | T9 | T10
    assert_eq!(layout.layer_count, 7);
    assert_eq!(layout.max_nodes_in_layer, 3);
    let layer_of = |id: &str| layout.nodes.iter().find(|n| n.id == id).unwrap().layer;
    assert_eq!(layer_of("T1"), 0);
    assert_eq!(layer_of("T2"), 1);
    assert_eq!(layer_of("T6"), 2);
    assert_eq!(layer_of("T5"), 3);
    assert_eq!(layer_of("T10"), 6);
    for w in layout.nodes.windows(2) {
        assert!(w[0].layer < w[1].layer || (w[0].layer == w[1].layer && w[0].index_in_layer + 1 == w[1].index_in_layer));
    }
    for &(a, b) in &layout.edges {
        assert!(layout.nodes[a].layer < layout.nodes[b].layer);
    }
    let critical: Vec<&str> = layout.nodes.iter().filter(|n| n.is_critical).map(|n| n.id.as_str()).collect();
    assert_eq!(critical.len(), result.critical_path.len());
    let t1 = layout.nodes.iter().find(|n| n.id == "T1").unwrap();
    assert_eq!(t1.duration, 13_000);
    assert_eq!(t1.name, "需求分析与评审");
}

#[test]
fn layout_edges_follow_the_newest_edge_first() {
    let data = ProjectData {
        tasks: vec![task("A", 1, 1, 1), task("B", 1, 1, 1), task("C", 1, 1, 1)],
        dependencies: vec![dep("A", "B"), dep("A", "C")],
    };
    let net = data.clone().into_net().unwrap();
    let result = compute_critical_path(&net).unwrap();
    let layout = compute_layout(&net, &result);
    let names: Vec<(String, String)> =
        layout.edges.iter().map(|&(a, b)| (layout.nodes[a].id.clone(), layout.nodes[b].id.clone())).collect();
    assert_eq!(names, vec![("A".to_string(), "C".to_string()), ("A".to_string(), "B".to_string())]);
    let by_order = layout_for_order(&net, &net.topological_order().unwrap(), &result);
    assert_eq!(by_order, layout);
}

#[test]
fn empty_layout() {
    let data = ProjectData { tasks: vec![], dependencies: vec![] };
    let (_, layout) = plan_project(&data).unwrap();
    assert!(layout.nodes.is_empty());
    assert_eq!(layout.layer_count, 0);
    assert_eq!(layout.max_nodes_in_layer, 0);
}

#[test]
fn plan_reports_the_same_errors() {
    let data = ProjectData { tasks: vec![task("A", 1, 1, 1)], dependencies: vec![dep("A", "A")] };
    assert_eq!(plan_project(&data).unwrap_err(), AoeError::CycleDetected { node: "A".to_string() });
}

#[test]
fn copies_are_equal() {
    let data = preview();
    assert_eq!(data.copy(), data);
    assert_eq!(copy_task(&data.tasks[3]), data.tasks[3]);
}

#[test]
fn schedule_and_layers_do_not_depend_on_the_order() {
    let net = preview().into_net().unwrap();
    let first = net.topological_order().unwrap();
    // another topological order: sources in reverse index order first (Kahn's algorithm)
    let n = net.tasks.len();
    let mut indegree: Vec<usize> = (0..n).map(|v| net.predecessors(v).len()).collect();
    let mut ready: Vec<usize> = (0..n).filter(|&v| indegree[v] == 0).collect();
    let mut second = Vec::new();
    while let Some(v) = ready.pop() {
        second.push(v);
        for w in net.successors(v) {
            indegree[w] -= 1;
            if indegree[w] == 0 {
                ready.push(w);
            }
        }
    }
    assert_eq!(second.len(), n);
    let r1 = critical_path_for_order(&net, &first);
    let r2 = critical_path_for_order(&net, &second);
    assert_eq!(r1.project_duration, r2.project_duration);
    for s1 in &r1.schedules {
        let s2 = r2.schedules.iter().find(|s| s.task_id == s1.task_id).unwrap();
        assert_eq!(s1, s2);
    }
    let l1 = layout_for_order(&net, &first, &r1);
    let l2 = layout_for_order(&net, &second, &r2);
    for a in &l1.nodes {
        let b = l2.nodes.iter().find(|b| b.id == a.id).unwrap();
        assert_eq!(a.layer, b.layer);
    }
}

#[test]
fn negative_estimates_are_scheduled() {
    // a lone task that takes -3 milli-days: it starts at 0 and finishes before it
    let lone = ProjectData { tasks: vec![task("A", -3, -3, -3)], dependencies: vec![] };
    let r = compute_critical_path_from_project(lone).unwrap();
    assert_eq!(r.project_duration, 0);
    let a = &r.schedules[0];
    assert_eq!(a.duration, -18);
    assert_eq!((a.earliest_start, a.earliest_finish), (0, -18));
    assert_eq!((a.latest_start, a.latest_finish), (18, 0));
    assert_eq!(a.slack, 18);
    assert!(!a.is_critical);
    assert!(r.critical_path.is_empty());

    // A (5) then B (-3), in milli-days
    let chain = ProjectData {
        tasks: vec![task("A", 5, 5, 5), task("B", -3, -3, -3)],
        dependencies: vec![dep("A", "B")],
    };
    let r = compute_critical_path_from_project(chain).unwrap();
    assert_eq!(r.project_duration, 30);
    let b = r.schedules.iter().find(|s| s.task_id == "B").unwrap();
    assert_eq!((b.earliest_start, b.earliest_finish, b.latest_start, b.latest_finish), (30, 12, 48, 30));
    let a = r.schedules.iter().find(|s| s.task_id == "A").unwrap();
    assert_eq!((a.latest_start, a.latest_finish, a.slack), (18, 48, 18));
    assert!(r.critical_path.is_empty());
}

#[test]
fn neighbours_of_a_non_node_are_empty() {
    let net = preview().into_net().unwrap();
    assert!(net.predecessors(10).is_empty());
    assert!(net.successors(usize::MAX).is_empty());
    assert!(!net.successors(0).is_empty());
}
