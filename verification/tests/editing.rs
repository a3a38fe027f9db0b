use graph_engine::edit::{
    add_task, check_new_task, label_of, next_task_id, remove_task, task_label, task_refs_for, NewTaskError,
};
use graph_engine::layout::{edge_ids, layer_sizes, GraphLayout, NodeLayout};
use graph_engine::mock::{
    generate_mock_project, make_admin_deps, make_admin_tasks, make_blog_deps, make_blog_tasks, make_default_deps,
    make_default_tasks, make_mall_deps, make_mall_tasks, project_kind, ProjectKind,
};
use graph_engine::session::{ChatMessage, Conversation, LlmMessage};
use graph_engine::text::clip_text;
use graph_engine::{compute_critical_path_from_project, Dependency, ProjectData, Task};

fn task(id: &str, name: &str) -> Task {
    Task {
        id: id.to_string(),
        name: name.to_string(),
        duration_optimistic: 1000,
        duration_normal: 2000,
        duration_pessimistic: 3000,
    }
}

fn dep(from: &str, to: &str) -> Dependency {
    Dependency { from: from.to_string(), to: to.to_string() }
}

fn strings(v: &[&str]) -> Vec<String> {
    v.iter().map(|s| s.to_string()).collect()
}

#[test]
fn make_mall_deps_lists_the_shop_dependencies() {
    let d = make_mall_deps();
    assert_eq!(d.len(), 14);
    assert_eq!(d[0], dep("T1", "T2"));
    assert_eq!(d[13], dep("T10", "T11"));
    assert_eq!(make_mall_tasks().len(), 11);
    assert_eq!(make_mall_tasks()[0].duration_pessimistic, 4000);
}

#[test]
fn make_blog_deps_lists_the_blog_dependencies() {
    let d = make_blog_deps();
    assert_eq!(d.len(), 13);
    assert_eq!(d[2], dep("T2", "T4"));
    assert_eq!(make_blog_tasks()[3].name, "文章管理");
}

#[test]
fn make_admin_deps_lists_the_back_office_dependencies() {
    let d = make_admin_deps();
    assert_eq!(d.len(), 13);
    assert_eq!(d[8], dep("T5", "T9"));
    assert_eq!(make_admin_tasks().len(), 10);
}

#[test]
fn make_default_deps_lists_the_general_dependencies() {
    let d = make_default_deps();
    assert_eq!(d.len(), 12);
    assert_eq!(d[11], dep("T9", "T10"));
    assert_eq!(make_default_tasks()[9].duration_normal, 1000);
}

#[test]
fn every_sample_project_schedules() {
    for (tasks, deps) in [
        (make_mall_tasks(), make_mall_deps()),
        (make_blog_tasks(), make_blog_deps()),
        (make_admin_tasks(), make_admin_deps()),
        (make_default_tasks(), make_default_deps()),
    ] {
        let r = compute_critical_path_from_project(ProjectData { tasks, dependencies: deps }).unwrap();
        assert!(!r.critical_path.is_empty());
        assert_eq!(r.critical_path[0], "T1");
    }
}

#[test]
fn requests_pick_samples_by_keyword() {
    assert_eq!(project_kind("我要做一个电商网站"), ProjectKind::Mall);
    assert_eq!(project_kind("An ONLINE SHOP please"), ProjectKind::Mall);
    assert_eq!(project_kind("个人博客"), ProjectKind::Blog);
    assert_eq!(project_kind("Content site"), ProjectKind::Blog);
    assert_eq!(project_kind("ADMIN dashboard"), ProjectKind::Admin);
    assert_eq!(project_kind("shop admin"), ProjectKind::Mall);
    assert_eq!(project_kind("something else"), ProjectKind::General);
    assert_eq!(ProjectKind::Blog.name(), "博客/CMS系统");
    assert_eq!(ProjectKind::General.name(), "通用软件项目");
}

#[test]
fn mock_project_is_scheduled() {
    let (kind, data, result) = generate_mock_project("Store");
    assert_eq!(kind, ProjectKind::Mall);
    assert_eq!(data.tasks.len(), 11);
    let r = result.unwrap();
    assert_eq!(r, compute_critical_path_from_project(data.clone()).unwrap());
    assert_eq!(r.schedules.len(), 11);
    assert_eq!(r.critical_path.last().unwrap(), "T11");
}

#[test]
fn next_id_fills_the_first_gap() {
    let empty = ProjectData { tasks: vec![], dependencies: vec![] };
    assert_eq!(next_task_id(&empty), "T1");
    let data = ProjectData { tasks: vec![task("T1", "a"), task("T2", "b"), task("T4", "d")], dependencies: vec![] };
    assert_eq!(next_task_id(&data), "T3");
    let many = ProjectData {
        tasks: (1..=10).map(|i| task(&format!("T{}", i), "x")).collect(),
        dependencies: vec![],
    };
    assert_eq!(next_task_id(&many), "T11");
}

#[test]
fn adding_a_task_links_and_sorts() {
    let data = ProjectData {
        tasks: vec![task("T1", "a"), task("T2", "b")],
        dependencies: vec![dep("T2", "T1"), dep("T1", "T2"), dep("T1", "T2")],
    };
    let (next, id) = add_task(&data, "  new task ", 1000, 2000, 3000, &strings(&["T2", "X9"]), &strings(&["T1"]));
    assert_eq!(id, "T3");
    assert_eq!(next.tasks.len(), 3);
    assert_eq!(next.tasks[2].name, "new task");
    assert_eq!(next.tasks[2].id, "T3");
    assert_eq!(
        next.dependencies,
        vec![dep("T1", "T2"), dep("T2", "T1"), dep("T2", "T3"), dep("T3", "T1")]
    );
}

#[test]
fn removing_a_task_drops_its_links() {
    let data = ProjectData {
        tasks: vec![task("T1", "a"), task("T2", "b"), task("T3", "c")],
        dependencies: vec![dep("T1", "T2"), dep("T2", "T3"), dep("T1", "T3")],
    };
    let (next, name) = remove_task(&data, &"T2".to_string()).unwrap();
    assert_eq!(name, "b");
    assert_eq!(next.tasks.iter().map(|t| t.id.as_str()).collect::<Vec<_>>(), vec!["T1", "T3"]);
    assert_eq!(next.dependencies, vec![dep("T1", "T3")]);
    assert!(remove_task(&data, &"T9".to_string()).is_none());
}

#[test]
fn removing_an_added_task_restores_the_project() {
    let data = ProjectData {
        tasks: vec![task("T1", "a"), task("T2", "b"), task("T4", "d")],
        dependencies: vec![dep("T4", "T1"), dep("T1", "T2"), dep("T4", "T1")],
    };
    let (added, id) = add_task(&data, " c ", 500, 1000, 1500, &strings(&["T1"]), &strings(&["T4"]));
    assert_eq!(id, "T3");
    let (after, name) = remove_task(&added, &id).unwrap();
    assert_eq!(name, "c");
    assert_eq!(after.tasks, data.tasks);
    assert_eq!(after.dependencies, vec![dep("T1", "T2"), dep("T4", "T1")]);
}

#[test]
fn removing_any_task_keeps_a_sample_schedulable() {
    let data = ProjectData { tasks: make_mall_tasks(), dependencies: make_mall_deps() };
    for t in &data.tasks {
        let (after, _) = remove_task(&data, &t.id).unwrap();
        assert_eq!(after.tasks.len(), 10);
        let r = compute_critical_path_from_project(after).unwrap();
        assert_eq!(r.schedules.len(), 10);
    }
}

#[test]
fn labels_and_references() {
    let data = ProjectData {
        tasks: vec![task("T1", "a"), task("T2", "b"), task("T3", "c")],
        dependencies: vec![dep("T1", "T3"), dep("T2", "T3"), dep("T9", "T3")],
    };
    assert_eq!(task_label(&data, &"T2".to_string()), Some("T2 b".to_string()));
    assert_eq!(task_label(&data, &"T7".to_string()), None);
    assert_eq!(label_of(&data.tasks[2]), "T3 c");
    assert_eq!(task_refs_for(&data, &"T3".to_string(), true), "T1 a, T2 b");
    assert_eq!(task_refs_for(&data, &"T1".to_string(), false), "T3 c");
    assert_eq!(task_refs_for(&data, &"T1".to_string(), true), "无");
}

#[test]
fn new_task_checks() {
    let none: Vec<String> = vec![];
    assert_eq!(check_new_task("   ", Some((1, 2, 3)), &none, &none), Some(NewTaskError::EmptyName));
    assert_eq!(check_new_task("x", None, &none, &none), Some(NewTaskError::NotANumber));
    assert_eq!(check_new_task("x", Some((0, 2, 3)), &none, &none), Some(NewTaskError::NotPositive));
    assert_eq!(check_new_task("x", Some((-1, 2, 3)), &none, &none), Some(NewTaskError::NotPositive));
    assert_eq!(check_new_task("x", Some((3, 2, 3)), &none, &none), Some(NewTaskError::OutOfOrder));
    assert_eq!(
        check_new_task("x", Some((1, 2, 3)), &strings(&["T1", "T2"]), &strings(&["T3", "T2"])),
        Some(NewTaskError::BothWays)
    );
    assert_eq!(check_new_task("x", Some((1, 1, 1)), &strings(&["T1"]), &strings(&["T2"])), None);
}

#[test]
fn conversation_flow() {
    let mut c = Conversation::new();
    assert_eq!(c.begin_request("   "), None);
    assert_eq!(c.begin_request("  build a shop "), Some("build a shop".to_string()));
    assert!(c.running);
    assert_eq!(c.chat_history.len(), 2);
    assert_eq!(c.chat_history[1].content, "正在分析...");
    assert!(c.chat_history[1].pending);
    assert_eq!(c.begin_request("again"), None);
    c.finish_request(Err("boom".to_string()));
    assert!(!c.running);
    assert_eq!(c.chat_history.len(), 2);
    assert_eq!(
        c.chat_history[1],
        ChatMessage { is_user: false, content: "分析失败：boom".to_string(), pending: false, is_error: true }
    );
    c.finish_request(Ok("done".to_string()));
    assert_eq!(c.chat_history.len(), 3);
    assert_eq!(c.chat_history[2].content, "done");
    c.chat_user("hi".to_string());
    c.chat_assistant("hello".to_string(), false, false);
    assert_eq!(c.chat_history.len(), 5);
    let m = LlmMessage::Done("{}".to_string());
    assert_eq!(m.clone(), m);
}

#[test]
fn clipping_labels() {
    assert_eq!(clip_text("short", 10), "short");
    assert_eq!(clip_text("需求分析与评审", 5), "需求...");
    assert_eq!(clip_text("abcdef", 3), "abc");
    assert_eq!(clip_text("abcdef", 0), "");
}

fn node(id: &str, layer: usize, index: usize) -> NodeLayout {
    NodeLayout { id: id.to_string(), name: String::new(), duration: 0, is_critical: false, layer, index_in_layer: index }
}

#[test]
fn layer_sizes_and_edge_ids() {
    let layout = GraphLayout {
        nodes: vec![node("A", 0, 0), node("B", 1, 0), node("C", 1, 1), node("D", 5, 0)],
        edges: vec![(0, 1), (0, 2)],
        layer_count: 2,
        max_nodes_in_layer: 2,
    };
    assert_eq!(layer_sizes(&layout), vec![1, 2]);
    assert_eq!(
        edge_ids(&layout),
        vec![("A".to_string(), "B".to_string()), ("A".to_string(), "C".to_string())]
    );
    let empty = GraphLayout { nodes: vec![], edges: vec![], layer_count: 0, max_nodes_in_layer: 0 };
    assert_eq!(layer_sizes(&empty), vec![0]);
}
