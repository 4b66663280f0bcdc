use agm_cli::runtime::checks::{CheckResult, VerifyResult};
use agm_cli::runtime::graph::DepGraph;
use agm_cli::runtime::memory::{MemoryAction, MemoryEntry, MemoryRuntime, MemoryScope, MemoryTtl};
use agm_cli::runtime::model::{AgmFile, CodeAction, CodeBlock, Header, Node, VerifyCheck};
use agm_cli::runtime::scheduler::{
    begin_node, build_orchestrated_dry_run_report, build_report, combine_verification, execution_set,
    finish_node, memory_post_writes, memory_pre_reads, next_step, node_code_blocks, node_outcome, parallel_eligible,
    sequential_eligible, ParallelGroup, RunConfig, RunStep, Strategy,
};
use agm_cli::runtime::state::{ExecutionStatus, ExecutionTracker};

fn test_node(id: &str) -> Node {
    Node {
        id: id.to_owned(),
        summary: format!("Test node {id}"),
        depends: None,
        agent_context: None,
        verify: None,
        code: None,
        code_blocks: None,
        memory: None,
    }
}

fn test_node_with_deps(id: &str, deps: Vec<&str>) -> Node {
    let mut node = test_node(id);
    node.depends = Some(deps.into_iter().map(str::to_owned).collect());
    node
}

fn test_file(nodes: Vec<Node>) -> AgmFile {
    AgmFile { header: Header { package: "test.pkg".to_owned(), version: "0.1.0".to_owned() }, nodes }
}

fn tracker_for(file: &AgmFile) -> ExecutionTracker {
    ExecutionTracker::new("test.agm", None, file, &DepGraph::build(file))
}

fn status_of(t: &ExecutionTracker, id: &str) -> ExecutionStatus {
    t.node_state(id).unwrap().execution_status
}

fn ids(v: &[&str]) -> Vec<String> {
    v.iter().map(|s| s.to_string()).collect()
}

fn node_memory(key: &str, action: MemoryAction, scope: MemoryScope) -> MemoryEntry {
    MemoryEntry {
        key: key.to_owned(),
        topic: "mytopic".to_owned(),
        action,
        value: Some("myvalue".to_owned()),
        scope: Some(scope),
        ttl: Some(MemoryTtl::Session),
        query: None,
        max_results: None,
    }
}

#[test]
fn run_node_success_marks_completed() {
    let file = test_file(vec![test_node("A")]);
    let mut tracker = tracker_for(&file);
    let mut memory = MemoryRuntime::new("test.agm.mem", "global.mem", "test.pkg");
    assert!(begin_node(&mut tracker, "A").is_ok());
    assert_eq!(status_of(&tracker, "A"), ExecutionStatus::InProgress);
    let r = finish_node(&mut tracker, &mut memory, "A", "mock-agent", true, "ok".to_owned(), 7).unwrap();
    assert_eq!(r.status, ExecutionStatus::Completed);
    assert_eq!(r.node_id, "A");
    assert_eq!(r.agent, "mock-agent");
    assert_eq!(r.duration_ms, 7);
    assert_eq!(r.output.as_deref(), Some("ok"));
    assert_eq!(status_of(&tracker, "A"), ExecutionStatus::Completed);
}

#[test]
fn run_node_failure_marks_failed_and_blocks_dependents() {
    let file = test_file(vec![test_node("A"), test_node_with_deps("B", vec!["A"]), test_node_with_deps("C", vec!["B"])]);
    let mut tracker = tracker_for(&file);
    let mut memory = MemoryRuntime::new("test.agm.mem", "global.mem", "test.pkg");
    assert!(begin_node(&mut tracker, "A").is_ok());
    let r = finish_node(&mut tracker, &mut memory, "A", "mock-agent", false, "boom".to_owned(), 1).unwrap();
    assert_eq!(r.status, ExecutionStatus::Failed);
    assert_eq!(status_of(&tracker, "A"), ExecutionStatus::Failed);
    assert_eq!(status_of(&tracker, "B"), ExecutionStatus::Blocked);
    assert_eq!(status_of(&tracker, "C"), ExecutionStatus::Blocked);
}

#[test]
fn run_node_begin_rejects_finished_or_unknown_nodes() {
    let file = test_file(vec![test_node("A")]);
    let mut tracker = tracker_for(&file);
    let mut memory = MemoryRuntime::new("test.agm.mem", "global.mem", "test.pkg");
    assert!(begin_node(&mut tracker, "missing").is_err());
    assert!(begin_node(&mut tracker, "A").is_ok());
    assert!(begin_node(&mut tracker, "A").is_err());
    assert!(finish_node(&mut tracker, &mut memory, "A", "mock-agent", true, String::new(), 0).is_ok());
    assert!(finish_node(&mut tracker, &mut memory, "A", "mock-agent", true, String::new(), 0).is_err());
}

#[test]
fn run_node_clears_node_memory_and_keeps_session() {
    let mut node = test_node("A");
    node.memory = Some(vec![
        node_memory("mykey", MemoryAction::Upsert, MemoryScope::Node),
        node_memory("shared", MemoryAction::Upsert, MemoryScope::Session),
        node_memory("mykey", MemoryAction::Get, MemoryScope::Node),
    ]);
    let file = test_file(vec![node]);
    let mut tracker = tracker_for(&file);
    let mut memory = MemoryRuntime::new("test.agm.mem", "global.mem", "test.pkg");
    assert!(begin_node(&mut tracker, "A").is_ok());
    memory_pre_reads(&mut memory, &file.nodes[0]);
    assert!(memory.get("A", MemoryScope::Node, "mykey").is_none());
    memory_post_writes(&mut memory, &file.nodes[0]);
    assert_eq!(memory.get("A", MemoryScope::Node, "mykey").unwrap().value, "myvalue");
    assert_eq!(memory.get("A", MemoryScope::Session, "shared").unwrap().value, "myvalue");
    finish_node(&mut tracker, &mut memory, "A", "mock-agent", true, String::new(), 0).unwrap();
    assert!(memory.get("A", MemoryScope::Node, "mykey").is_none());
    assert_eq!(memory.get("A", MemoryScope::Session, "shared").unwrap().value, "myvalue");
}

#[test]
fn run_node_execution_set_includes_unfinished_deps() {
    let file = test_file(vec![test_node("A"), test_node_with_deps("B", vec!["A"]), test_node("C")]);
    let tracker = tracker_for(&file);
    let mut set = execution_set(&ids(&["B"]), &tracker);
    set.sort();
    assert_eq!(set, ids(&["A", "B"]));
}

#[test]
fn run_node_execution_set_skips_completed_deps() {
    let file = test_file(vec![test_node("A"), test_node_with_deps("B", vec!["A"])]);
    let mut tracker = tracker_for(&file);
    let mut memory = MemoryRuntime::new("test.agm.mem", "global.mem", "test.pkg");
    begin_node(&mut tracker, "A").unwrap();
    finish_node(&mut tracker, &mut memory, "A", "mock-agent", true, String::new(), 0).unwrap();
    assert_eq!(execution_set(&ids(&["B"]), &tracker), ids(&["B"]));
}

#[test]
fn run_node_report_counts_match_execution() {
    let file = test_file(vec![test_node("A"), test_node("B"), test_node("C")]);
    let mut tracker = tracker_for(&file);
    let mut memory = MemoryRuntime::new("test.agm.mem", "global.mem", "test.pkg");
    let mut results = Vec::new();
    for (id, ok) in [("A", true), ("B", false), ("C", true)] {
        begin_node(&mut tracker, id).unwrap();
        results.push(finish_node(&mut tracker, &mut memory, id, "mock-agent", ok, String::new(), 0).unwrap());
    }
    let report = build_report(&tracker, &None, results, 12);
    assert_eq!(report.total_nodes, 3);
    assert_eq!(report.executed, 3);
    assert_eq!(report.succeeded, 2);
    assert_eq!(report.failed, 1);
    assert_eq!(report.skipped, 0);
    assert_eq!(report.blocked, 0);
    assert_eq!(report.duration_ms, 12);
}

#[test]
fn run_node_combine_verification_appends_log() {
    let (ok, out) = combine_verification("agent out".to_owned(), None);
    assert!(ok);
    assert_eq!(out, "agent out");
    let failed = VerifyResult {
        node_id: "A".to_owned(),
        checks: vec![CheckResult {
            check: VerifyCheck::FileExists { file: "x".to_owned() },
            passed: false,
            message: "File not found: /w/x".to_owned(),
            duration_ms: 1,
        }],
        all_passed: false,
    };
    let (ok, out) = combine_verification("agent out".to_owned(), Some(&failed));
    assert!(!ok);
    assert!(out.starts_with("agent out\n---\n"), "output: {out}");
    assert!(out.contains("[FAIL] file_exists: x"), "output: {out}");
}

#[test]
fn run_node_code_blocks_single_then_list() {
    let block = |body: &str| CodeBlock {
        lang: Some("sh".to_owned()),
        target: None,
        action: CodeAction::Full,
        body: body.to_owned(),
        old: None,
        anchor: None,
    };
    let mut node = test_node("A");
    node.code = Some(block("one"));
    node.code_blocks = Some(vec![block("two"), block("three")]);
    let blocks = node_code_blocks(&node);
    let bodies: Vec<&str> = blocks.iter().map(|b| b.body.as_str()).collect();
    assert_eq!(bodies, vec!["one", "two", "three"]);
}

#[test]
fn run_node_group_eligibility() {
    let file = test_file(vec![test_node("A"), test_node("B"), test_node_with_deps("C", vec!["A"])]);
    let mut tracker = tracker_for(&file);
    let mut memory = MemoryRuntime::new("test.agm.mem", "global.mem", "test.pkg");
    begin_node(&mut tracker, "B").unwrap();
    finish_node(&mut tracker, &mut memory, "B", "mock-agent", true, String::new(), 0).unwrap();
    assert!(sequential_eligible(&tracker, "A"));
    assert!(!sequential_eligible(&tracker, "B"));
    assert!(sequential_eligible(&tracker, "unknown"));
    assert_eq!(parallel_eligible(&tracker, &ids(&["A", "B", "C", "unknown"])), ids(&["A", "C"]));
}

#[test]
fn run_node_orchestrated_dry_run_lists_groups_in_order() {
    let groups = vec![
        ParallelGroup {
            group: "second".to_owned(),
            nodes: ids(&["C"]),
            strategy: Strategy::Parallel,
            requires: Some(ids(&["first"])),
            max_concurrency: None,
        },
        ParallelGroup {
            group: "first".to_owned(),
            nodes: ids(&["A", "B"]),
            strategy: Strategy::Sequential,
            requires: None,
            max_concurrency: None,
        },
    ];
    let report = build_orchestrated_dry_run_report(&groups, &ids(&["first", "second"]));
    let listed: Vec<&str> = report.node_results.iter().map(|r| r.node_id.as_str()).collect();
    assert_eq!(listed, vec!["A", "B", "C"]);
    assert_eq!(
        report.node_results[0].output.as_deref(),
        Some("Dry-run: group 'first', strategy: sequential, would execute")
    );
    assert_eq!(
        report.node_results[2].output.as_deref(),
        Some("Dry-run: group 'second', strategy: parallel, would execute")
    );
    assert_eq!(report.total_nodes, 3);
    assert_eq!(report.skipped, 3);
    assert_eq!(report.executed, 0);
}

#[test]
fn run_node_post_writes_last_upsert_wins_and_oversized_is_skipped() {
    let mut first = node_memory("k", MemoryAction::Upsert, MemoryScope::Session);
    first.value = Some("v1".to_owned());
    let mut second = node_memory("k", MemoryAction::Upsert, MemoryScope::Session);
    second.value = Some("v2".to_owned());
    second.topic = "later".to_owned();
    let mut big = node_memory("big", MemoryAction::Upsert, MemoryScope::Session);
    big.value = Some("x".repeat(40_000));
    let mut node = test_node("A");
    node.memory = Some(vec![first, second, big]);
    let mut memory = MemoryRuntime::new("test.agm.mem", "global.mem", "test.pkg");
    memory_post_writes(&mut memory, &node);
    let e = memory.get("A", MemoryScope::Session, "k").unwrap();
    assert_eq!(e.value, "v2");
    assert_eq!(e.topic, "later");
    assert!(memory.get("A", MemoryScope::Session, "big").is_none());
}

#[test]
fn run_node_report_counts_nodes_outside_the_targets_as_skipped() {
    let file = test_file(vec![test_node("A"), test_node("B"), test_node("C")]);
    let mut tracker = tracker_for(&file);
    let mut memory = MemoryRuntime::new("test.agm.mem", "global.mem", "test.pkg");
    let set = execution_set(&ids(&["B"]), &tracker);
    begin_node(&mut tracker, "B").unwrap();
    let result = finish_node(&mut tracker, &mut memory, "B", "mock-agent", true, String::new(), 0).unwrap();
    let report = build_report(&tracker, &Some(set), vec![result], 5);
    assert_eq!(report.total_nodes, 3);
    assert_eq!(report.executed, 1);
    assert_eq!(report.succeeded, 1);
    assert_eq!(report.skipped, 2);
}

fn step_ids(step: RunStep) -> Option<Vec<String>> {
    match step {
        RunStep::Stop => None,
        RunStep::Run(b) => Some(b),
    }
}

#[test]
fn run_step_walks_the_graph_once_per_node() {
    let file = test_file(vec![test_node("A"), test_node_with_deps("B", vec!["A"]), test_node("C")]);
    let mut tracker = tracker_for(&file);
    let mut memory = MemoryRuntime::new("test.agm.mem", "global.mem", "test.pkg");
    let topo = ids(&["A", "C", "B"]);
    let config = RunConfig::default();
    let mut order = Vec::new();
    while let Some(batch) = step_ids(next_step(&tracker, &None, &topo, &config, false)) {
        assert_eq!(batch.len(), 1);
        let id = batch[0].clone();
        begin_node(&mut tracker, &id).unwrap();
        finish_node(&mut tracker, &mut memory, &id, "mock-agent", true, String::new(), 0).unwrap();
        order.push(id);
    }
    assert_eq!(order, ids(&["A", "C", "B"]));
}

#[test]
fn run_step_blocks_dependents_and_fails_fast() {
    let file = test_file(vec![test_node("A"), test_node_with_deps("B", vec!["A"]), test_node("C")]);
    let mut tracker = tracker_for(&file);
    let mut memory = MemoryRuntime::new("test.agm.mem", "global.mem", "test.pkg");
    let topo = ids(&["A", "B", "C"]);
    let mut config = RunConfig::default();
    config.max_concurrency = 4;
    let batch = step_ids(next_step(&tracker, &None, &topo, &config, false)).unwrap();
    assert_eq!(batch, ids(&["A", "C"]));
    begin_node(&mut tracker, "A").unwrap();
    begin_node(&mut tracker, "C").unwrap();
    finish_node(&mut tracker, &mut memory, "A", "mock-agent", false, String::new(), 0).unwrap();
    finish_node(&mut tracker, &mut memory, "C", "mock-agent", true, String::new(), 0).unwrap();
    assert_eq!(status_of(&tracker, "B"), ExecutionStatus::Blocked);
    assert!(step_ids(next_step(&tracker, &None, &topo, &config, true)).is_none());
    config.fail_fast = true;
    let fresh = tracker_for(&file);
    assert!(step_ids(next_step(&fresh, &None, &topo, &config, true)).is_none());
}

#[test]
fn run_step_keeps_to_the_execution_set() {
    let file = test_file(vec![test_node("A"), test_node("B"), test_node("C")]);
    let tracker = tracker_for(&file);
    let topo = ids(&["A", "B", "C"]);
    let mut config = RunConfig::default();
    config.max_concurrency = 3;
    let set = Some(ids(&["C", "B"]));
    assert_eq!(step_ids(next_step(&tracker, &set, &topo, &config, false)), Some(ids(&["B", "C"])));
}

#[test]
fn node_outcome_fails_with_the_agent() {
    assert_eq!(node_outcome(false, "boom".to_owned(), None), (false, "boom".to_owned()));
    assert_eq!(node_outcome(true, "ok".to_owned(), None), (true, "ok".to_owned()));
}
