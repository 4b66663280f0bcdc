use agm_cli::commands::status::completed_percent;
use agm_cli::keyed::KeyedMap;
use agm_cli::runtime::graph::DepGraph;
use agm_cli::runtime::model::{AgmFile, Header, Node};
use agm_cli::runtime::state::{
    reconcile_state, state_path, validate_transition, ExecutionStatus, ExecutionTracker, NodeState, StateFile,
    TrackerError,
};

fn test_node(id: &str) -> Node {
    Node {
        id: id.to_owned(),
        summary: format!("test node {id}"),
        depends: None,
        agent_context: None,
        verify: None,
        code: None,
        code_blocks: None,
        memory: None,
    }
}

fn test_node_with_deps(id: &str, deps: Vec<&str>) -> Node {
    let mut node = test_node(id);
    node.depends = Some(deps.into_iter().map(str::to_owned).collect());
    node
}

fn test_file(nodes: Vec<Node>) -> AgmFile {
    AgmFile { header: Header { package: "test.pkg".to_owned(), version: "0.1.0".to_owned() }, nodes }
}

fn status(s: ExecutionStatus) -> NodeState {
    let mut ns = NodeState::default();
    ns.execution_status = s;
    ns
}

fn test_state(nodes: Vec<(&str, NodeState)>) -> StateFile {
    let mut m = KeyedMap::new();
    for (k, v) in nodes {
        m.insert(k.to_owned(), v);
    }
    StateFile {
        format_version: "1.0".to_owned(),
        package: "test.pkg".to_owned(),
        version: "0.1.0".to_owned(),
        session_id: "run-test".to_owned(),
        started_at: "2026-04-08T10:00:00Z".to_owned(),
        updated_at: "2026-04-08T10:00:00Z".to_owned(),
        nodes: m,
    }
}

fn tracker(state: StateFile, file: &AgmFile) -> ExecutionTracker {
    ExecutionTracker::from_state("test.agm", state, DepGraph::build(file))
}

fn status_of(t: &ExecutionTracker, id: &str) -> ExecutionStatus {
    t.node_state(id).unwrap().execution_status
}

#[test]
fn test_validate_transition_pending_to_ready_returns_ok() {
    assert!(validate_transition(&ExecutionStatus::Pending, &ExecutionStatus::Ready).is_ok());
}

#[test]
fn test_validate_transition_pending_to_blocked_returns_ok() {
    assert!(validate_transition(&ExecutionStatus::Pending, &ExecutionStatus::Blocked).is_ok());
}

#[test]
fn test_validate_transition_pending_to_skipped_returns_ok() {
    assert!(validate_transition(&ExecutionStatus::Pending, &ExecutionStatus::Skipped).is_ok());
}

#[test]
fn test_validate_transition_ready_to_in_progress_returns_ok() {
    assert!(validate_transition(&ExecutionStatus::Ready, &ExecutionStatus::InProgress).is_ok());
}

#[test]
fn test_validate_transition_in_progress_to_completed_returns_ok() {
    assert!(validate_transition(&ExecutionStatus::InProgress, &ExecutionStatus::Completed).is_ok());
}

#[test]
fn test_validate_transition_in_progress_to_failed_returns_ok() {
    assert!(validate_transition(&ExecutionStatus::InProgress, &ExecutionStatus::Failed).is_ok());
}

#[test]
fn test_validate_transition_failed_to_ready_returns_ok() {
    assert!(validate_transition(&ExecutionStatus::Failed, &ExecutionStatus::Ready).is_ok());
}

#[test]
fn test_validate_transition_blocked_to_ready_returns_ok() {
    assert!(validate_transition(&ExecutionStatus::Blocked, &ExecutionStatus::Ready).is_ok());
}

#[test]
fn test_validate_transition_completed_to_ready_returns_err() {
    assert!(validate_transition(&ExecutionStatus::Completed, &ExecutionStatus::Ready).is_err());
}

#[test]
fn test_validate_transition_completed_to_pending_returns_err() {
    assert!(validate_transition(&ExecutionStatus::Completed, &ExecutionStatus::Pending).is_err());
}

#[test]
fn test_validate_transition_skipped_to_ready_returns_err() {
    assert!(validate_transition(&ExecutionStatus::Skipped, &ExecutionStatus::Ready).is_err());
}

#[test]
fn test_validate_transition_in_progress_to_pending_returns_err() {
    assert!(validate_transition(&ExecutionStatus::InProgress, &ExecutionStatus::Pending).is_err());
}

#[test]
fn test_validate_transition_ready_to_pending_returns_err() {
    assert!(validate_transition(&ExecutionStatus::Ready, &ExecutionStatus::Pending).is_err());
}

#[test]
fn test_validate_transition_pending_to_pending_returns_err() {
    assert!(validate_transition(&ExecutionStatus::Pending, &ExecutionStatus::Pending).is_err());
}

#[test]
fn test_validate_transition_error_message() {
    let e = validate_transition(&ExecutionStatus::Completed, &ExecutionStatus::Ready).unwrap_err();
    assert!(e.contains("completed"));
    assert!(e.contains("ready"));
}

#[test]
fn test_state_path_appends_state_extension() {
    assert_eq!(state_path("foo.agm"), "foo.agm.state");
}

#[test]
fn test_state_path_absolute_path_preserved() {
    assert_eq!(state_path("/home/user/project/file.agm"), "/home/user/project/file.agm.state");
}

#[test]
fn test_initialize_no_deps_all_ready() {
    let file = test_file(vec![test_node("a"), test_node("b"), test_node("c")]);
    let graph = DepGraph::build(&file);
    let state = ExecutionTracker::initialize(&file, &graph, "run-test");
    assert_eq!(state.nodes.len(), 3);
    for i in 0..state.nodes.len() {
        assert_eq!(state.nodes.value_at(i).execution_status, ExecutionStatus::Ready);
    }
    assert_eq!(state.session_id, "run-test");
    assert_eq!(state.package, "test.pkg");
}

#[test]
fn test_initialize_with_deps_sets_pending() {
    let file = test_file(vec![test_node_with_deps("a", vec!["b"]), test_node("b")]);
    let graph = DepGraph::build(&file);
    let state = ExecutionTracker::initialize(&file, &graph, "run-test");
    assert_eq!(state.nodes.get("a").unwrap().execution_status, ExecutionStatus::Pending);
    assert_eq!(state.nodes.get("b").unwrap().execution_status, ExecutionStatus::Ready);
}

#[test]
fn test_initialize_empty_file_returns_empty_nodes() {
    let file = test_file(vec![]);
    let graph = DepGraph::build(&file);
    let state = ExecutionTracker::initialize(&file, &graph, "run-test");
    assert_eq!(state.nodes.len(), 0);
}

#[test]
fn test_reconcile_preserves_existing_statuses() {
    let file = test_file(vec![test_node("a"), test_node("b")]);
    let a = NodeState {
        execution_status: ExecutionStatus::Completed,
        executed_by: Some("agent-1".to_owned()),
        executed_at: Some("2026-04-08T10:00:00Z".to_owned()),
        execution_log: None,
        retry_count: 0,
    };
    let mut state = test_state(vec![("a", a), ("b", NodeState::default())]);
    reconcile_state(&mut state, &file);
    assert_eq!(state.nodes.get("a").unwrap().execution_status, ExecutionStatus::Completed);
    assert_eq!(state.nodes.get("a").unwrap().executed_by, Some("agent-1".to_owned()));
}

#[test]
fn test_reconcile_prunes_stale_entries() {
    let file = test_file(vec![test_node("a")]);
    let mut state = test_state(vec![("a", NodeState::default()), ("old", NodeState::default())]);
    reconcile_state(&mut state, &file);
    assert!(state.nodes.get("a").is_some());
    assert!(state.nodes.get("old").is_none());
}

#[test]
fn test_reconcile_adds_new_nodes() {
    let file = test_file(vec![test_node("a"), test_node("new")]);
    let mut state = test_state(vec![("a", NodeState::default())]);
    reconcile_state(&mut state, &file);
    assert_eq!(state.nodes.get("new").unwrap().execution_status, ExecutionStatus::Ready);
}

#[test]
fn test_mark_completed_sets_fields() {
    let file = test_file(vec![test_node("a")]);
    let mut t = tracker(test_state(vec![("a", status(ExecutionStatus::InProgress))]), &file);
    assert!(t.mark_completed("a", "agent-1", Some("log.txt".to_owned())).is_ok());
    let ns = t.node_state("a").unwrap();
    assert_eq!(ns.execution_status, ExecutionStatus::Completed);
    assert_eq!(ns.executed_by, Some("agent-1".to_owned()));
    assert!(ns.executed_at.is_some());
    assert_eq!(ns.execution_log, Some("log.txt".to_owned()));
}

#[test]
fn test_mark_failed_sets_fields() {
    let file = test_file(vec![test_node("a")]);
    let mut t = tracker(test_state(vec![("a", status(ExecutionStatus::InProgress))]), &file);
    assert!(t.mark_failed("a", "agent-1", None).is_ok());
    let ns = t.node_state("a").unwrap();
    assert_eq!(ns.execution_status, ExecutionStatus::Failed);
    assert_eq!(ns.executed_by, Some("agent-1".to_owned()));
    assert!(ns.executed_at.is_some());
    assert!(ns.execution_log.is_none());
}

#[test]
fn test_mark_completed_from_pending_returns_err() {
    let file = test_file(vec![test_node("a")]);
    let mut t = tracker(test_state(vec![("a", NodeState::default())]), &file);
    let r = t.mark_completed("a", "agent-1", None);
    assert!(matches!(r, Err(TrackerError::InvalidTransition(ExecutionStatus::Pending, ExecutionStatus::Completed))));
    assert_eq!(status_of(&t, "a"), ExecutionStatus::Pending);
}

#[test]
fn test_mark_unknown_node_returns_not_found() {
    let file = test_file(vec![test_node("a")]);
    let mut t = tracker(test_state(vec![("a", NodeState::default())]), &file);
    match t.transition("zzz", ExecutionStatus::Ready) {
        Err(e) => assert_eq!(e.message(), "Node 'zzz' not found in state"),
        Ok(()) => panic!("unknown node must be refused"),
    }
}

#[test]
fn test_retry_failed_to_ready_increments_count() {
    let file = test_file(vec![test_node("a")]);
    let mut t = tracker(test_state(vec![("a", status(ExecutionStatus::Failed))]), &file);
    assert!(t.retry("a").is_ok());
    let ns = t.node_state("a").unwrap();
    assert_eq!(ns.execution_status, ExecutionStatus::Ready);
    assert_eq!(ns.retry_count, 1);
    assert!(ns.executed_by.is_none());
}

#[test]
fn test_retry_completed_returns_err() {
    let file = test_file(vec![test_node("a")]);
    let mut t = tracker(test_state(vec![("a", status(ExecutionStatus::Completed))]), &file);
    assert!(t.retry("a").is_err());
}

#[test]
fn test_reset_sets_all_nodes_to_pending() {
    let file = test_file(vec![test_node("a"), test_node("b")]);
    let mut a = status(ExecutionStatus::Completed);
    a.executed_by = Some("agent".to_owned());
    a.retry_count = 2;
    let mut t = tracker(test_state(vec![("a", a), ("b", status(ExecutionStatus::Failed))]), &file);
    assert!(t.reset().is_ok());
    let nodes = &t.state().nodes;
    for i in 0..nodes.len() {
        let ns = nodes.value_at(i);
        assert_eq!(ns.execution_status, ExecutionStatus::Pending);
        assert_eq!(ns.retry_count, 0);
        assert!(ns.executed_by.is_none());
    }
}

#[test]
fn test_reset_node_resets_single_node() {
    let file = test_file(vec![test_node("a"), test_node("b")]);
    let mut a = status(ExecutionStatus::Completed);
    a.retry_count = 1;
    let mut b = status(ExecutionStatus::Completed);
    b.retry_count = 3;
    let mut t = tracker(test_state(vec![("a", a), ("b", b)]), &file);
    assert!(t.reset_node("a").is_ok());
    assert_eq!(status_of(&t, "a"), ExecutionStatus::Pending);
    assert_eq!(t.node_state("a").unwrap().retry_count, 0);
    assert_eq!(status_of(&t, "b"), ExecutionStatus::Completed);
    assert_eq!(t.node_state("b").unwrap().retry_count, 3);
}

#[test]
fn test_ready_nodes_returns_only_ready_status() {
    let file = test_file(vec![test_node("a"), test_node("b"), test_node("c")]);
    let t = tracker(
        test_state(vec![
            ("a", status(ExecutionStatus::Ready)),
            ("b", status(ExecutionStatus::Completed)),
            ("c", status(ExecutionStatus::Ready)),
        ]),
        &file,
    );
    let ready = t.ready_nodes();
    assert_eq!(ready.len(), 2);
    assert!(ready.contains(&"a".to_owned()));
    assert!(ready.contains(&"c".to_owned()));
}

#[test]
fn test_ready_nodes_promotes_pending_with_completed_deps() {
    let file = test_file(vec![test_node_with_deps("a", vec!["b"]), test_node("b")]);
    let t = tracker(
        test_state(vec![("a", status(ExecutionStatus::Pending)), ("b", status(ExecutionStatus::Completed))]),
        &file,
    );
    assert!(t.ready_nodes().contains(&"a".to_owned()), "a should be promoted to ready");
}

#[test]
fn test_ready_nodes_excludes_pending_with_unmet_deps() {
    let file = test_file(vec![test_node_with_deps("a", vec!["b"]), test_node("b")]);
    let t = tracker(
        test_state(vec![("a", status(ExecutionStatus::Pending)), ("b", status(ExecutionStatus::Pending))]),
        &file,
    );
    assert!(!t.ready_nodes().contains(&"a".to_owned()), "a should NOT be ready");
}

#[test]
fn test_progress_counts_correct() {
    let file = test_file(vec![test_node("a"), test_node("b"), test_node("c"), test_node("d"), test_node("e")]);
    let t = tracker(
        test_state(vec![
            ("a", status(ExecutionStatus::Completed)),
            ("b", status(ExecutionStatus::Failed)),
            ("c", status(ExecutionStatus::Pending)),
            ("d", status(ExecutionStatus::Ready)),
            ("e", status(ExecutionStatus::Skipped)),
        ]),
        &file,
    );
    let p = t.progress();
    assert_eq!(p.total, 5);
    assert_eq!(p.completed, 1);
    assert_eq!(p.failed, 1);
    assert_eq!(p.pending, 1);
    assert_eq!(p.ready, 1);
    assert_eq!(p.skipped, 1);
    assert_eq!(p.blocked, 0);
    assert_eq!(p.in_progress, 0);
    assert_eq!(completed_percent(p.completed + p.skipped, p.total), 40);
}

#[test]
fn test_progress_empty_returns_zero_percent() {
    let file = test_file(vec![]);
    let t = tracker(test_state(vec![]), &file);
    let p = t.progress();
    assert_eq!(p.total, 0);
    assert_eq!(completed_percent(p.completed + p.skipped, p.total), 0);
}

#[test]
fn test_propagate_blocked_blocks_transitive_dependents() {
    let file = test_file(vec![test_node("a"), test_node_with_deps("b", vec!["a"]), test_node_with_deps("c", vec!["b"])]);
    let mut t = tracker(
        test_state(vec![
            ("a", status(ExecutionStatus::Failed)),
            ("b", status(ExecutionStatus::Pending)),
            ("c", status(ExecutionStatus::Pending)),
        ]),
        &file,
    );
    let blocked = t.propagate_blocked("a");
    assert!(blocked.contains(&"b".to_owned()));
    assert!(blocked.contains(&"c".to_owned()));
    assert_eq!(status_of(&t, "b"), ExecutionStatus::Blocked);
    assert_eq!(status_of(&t, "c"), ExecutionStatus::Blocked);
    assert_eq!(status_of(&t, "a"), ExecutionStatus::Failed);
}

#[test]
fn test_propagate_blocked_skips_completed_nodes() {
    let file = test_file(vec![test_node("a"), test_node_with_deps("b", vec!["a"])]);
    let mut t = tracker(
        test_state(vec![("a", status(ExecutionStatus::Failed)), ("b", status(ExecutionStatus::Completed))]),
        &file,
    );
    let blocked = t.propagate_blocked("a");
    assert!(!blocked.contains(&"b".to_owned()));
    assert_eq!(status_of(&t, "b"), ExecutionStatus::Completed);
}

#[test]
fn test_transitive_deps_lists_every_ancestor() {
    let file = test_file(vec![test_node("a"), test_node_with_deps("b", vec!["a"]), test_node_with_deps("c", vec!["b"])]);
    let t = tracker(
        test_state(vec![("a", NodeState::default()), ("b", NodeState::default()), ("c", NodeState::default())]),
        &file,
    );
    let deps = t.transitive_deps("c");
    assert!(deps.contains(&"a".to_owned()));
    assert!(deps.contains(&"b".to_owned()));
    assert!(!deps.contains(&"c".to_owned()));
}

#[test]
fn test_reset_keep_completed_filters_correctly() {
    let file = test_file(vec![test_node("a"), test_node("b"), test_node("c")]);
    let mut b = status(ExecutionStatus::Failed);
    b.retry_count = 2;
    let mut t = tracker(
        test_state(vec![("a", status(ExecutionStatus::Completed)), ("b", b), ("c", status(ExecutionStatus::Pending))]),
        &file,
    );
    assert_eq!(t.reset_unfinished(), 2);
    assert_eq!(status_of(&t, "a"), ExecutionStatus::Completed);
    assert_eq!(status_of(&t, "b"), ExecutionStatus::Pending);
    assert_eq!(t.node_state("b").unwrap().retry_count, 0);
}

#[test]
fn test_reset_clears_all() {
    let file = test_file(vec![test_node("a"), test_node("b"), test_node("c")]);
    let mut t = tracker(
        test_state(vec![
            ("a", status(ExecutionStatus::Completed)),
            ("b", status(ExecutionStatus::Failed)),
            ("c", status(ExecutionStatus::Pending)),
        ]),
        &file,
    );
    assert!(t.reset().is_ok());
    for id in ["a", "b", "c"] {
        assert_eq!(status_of(&t, id), ExecutionStatus::Pending);
    }
}

#[test]
fn test_propagate_blocked_returns_dependents_in_breadth_first_order() {
    // a <- b <- d, a <- c; d also depends on c; e is Ready and depends on d
    let file = test_file(vec![
        test_node("a"),
        test_node_with_deps("b", vec!["a"]),
        test_node_with_deps("c", vec!["a"]),
        test_node_with_deps("d", vec!["b", "c"]),
        test_node_with_deps("e", vec!["d"]),
    ]);
    let mut t = tracker(
        test_state(vec![
            ("a", status(ExecutionStatus::Failed)),
            ("b", status(ExecutionStatus::Pending)),
            ("c", status(ExecutionStatus::Completed)),
            ("d", status(ExecutionStatus::Pending)),
            ("e", status(ExecutionStatus::Ready)),
        ]),
        &file,
    );
    let blocked = t.propagate_blocked("a");
    assert_eq!(blocked, vec!["b".to_owned(), "d".to_owned(), "e".to_owned()]);
    assert_eq!(status_of(&t, "c"), ExecutionStatus::Completed);
    assert_eq!(status_of(&t, "e"), ExecutionStatus::Blocked);
}
