use agm_cli::commands::verify_cmd::{verify_exit_code, verify_targets};
use agm_cli::keyed::KeyedMap;
use agm_cli::runtime::checks::{
    check_label, command_check_result, file_contains_result, file_exists_result, file_not_contains_result,
    format_verify_log, match_pattern, past_limit, remaining_ns, run_node_status_check, NANOS_PER_SEC, CheckResult, CommandOutcome, FailStrategy, VerifyResult,
    VerifyRun,
};
use agm_cli::runtime::graph::DepGraph;
use agm_cli::runtime::model::{AgmFile, Header, Node, VerifyCheck};
use agm_cli::runtime::state::{ExecutionTracker, StateFile};

fn node_with_checks(id: &str, checks: Vec<VerifyCheck>) -> Node {
    Node {
        id: id.to_owned(),
        summary: format!("test node {id}"),
        depends: None,
        agent_context: None,
        verify: if checks.is_empty() { None } else { Some(checks) },
        code: None,
        code_blocks: None,
        memory: None,
    }
}

fn test_tracker(node_ids: &[&str]) -> ExecutionTracker {
    let nodes: Vec<Node> = node_ids.iter().map(|id| node_with_checks(id, vec![])).collect();
    let file = AgmFile { header: Header { package: "test.pkg".to_owned(), version: "0.1.0".to_owned() }, nodes };
    let graph = DepGraph::build(&file);
    let state: StateFile = ExecutionTracker::initialize(&file, &graph, "run-test");
    ExecutionTracker::from_state("test.agm", state, graph)
}

fn exited(code: i32, stdout: &str, stderr: &str) -> CommandOutcome {
    CommandOutcome::Exited { code: Some(code), stdout: stdout.as_bytes().to_vec(), stderr: stderr.as_bytes().to_vec() }
}

fn cmd(run: &str, expect: Option<&str>, outcome: CommandOutcome) -> CheckResult {
    command_check_result(run, expect.map(str::to_owned), outcome, 3)
}

fn file_exists(file: &str) -> VerifyCheck {
    VerifyCheck::FileExists { file: file.to_owned() }
}

/// Runs the checks of `node`, answering each file-exists check from `present`.
fn drive(node: &Node, strategy: FailStrategy, present: &[&str]) -> VerifyResult {
    let mut run = VerifyRun::start(node, strategy);
    while let Some(check) = run.next_check() {
        let result = match check {
            VerifyCheck::FileExists { file } => {
                let path = format!("/work/{file}");
                file_exists_result(file, &path, present.contains(&file.as_str()), 1)
            }
            _ => panic!("only file checks are used here"),
        };
        run.record(result);
    }
    run.finish()
}

#[test]
fn test_command_check_exit_code_0_passes() {
    let r = cmd("echo hello", Some("exit_code_0"), exited(0, "hello\n", ""));
    assert!(r.passed, "expected pass, got: {}", r.message);
}

#[test]
fn test_command_check_exit_code_0_default_expect() {
    let r = cmd("echo hello", None, exited(0, "hello\n", ""));
    assert!(r.passed, "expected pass, got: {}", r.message);
    assert_eq!(r.message, "Command succeeded: exit_code=0\nstdout: hello\n\nstderr: (empty)");
}

#[test]
fn test_command_check_exit_code_nonzero_passes() {
    let r = cmd("false", Some("exit_code_nonzero"), exited(1, "", ""));
    assert!(r.passed, "expected pass, got: {}", r.message);
}

#[test]
fn test_command_check_exit_code_nonzero_fails_on_success() {
    let r = cmd("echo hello", Some("exit_code_nonzero"), exited(0, "hello\n", ""));
    assert!(!r.passed, "expected fail, got: {}", r.message);
    assert!(r.message.starts_with("Command failed: expected exit_code_nonzero, got exit_code=0"));
}

#[test]
fn test_command_check_output_contains_passes() {
    let r = cmd("echo hello world", Some("output_contains: hello"), exited(0, "hello world\n", ""));
    assert!(r.passed, "expected pass, got: {}", r.message);
}

#[test]
fn test_command_check_output_contains_fails() {
    let r = cmd("echo hello", Some("output_contains: goodbye"), exited(0, "hello\n", ""));
    assert!(!r.passed, "expected fail, got: {}", r.message);
}

#[test]
fn test_command_check_output_matches_regex_passes() {
    let r = cmd("echo hello123", Some(r"output_matches: hello\d+"), exited(0, "hello123\n", ""));
    assert!(r.passed, "expected pass, got: {}", r.message);
}

#[test]
fn test_command_check_output_matches_invalid_regex_fails() {
    let r = cmd("echo hello", Some("output_matches: [invalid"), exited(0, "hello\n", ""));
    assert!(!r.passed);
    assert!(r.message.contains("Invalid regex") || r.message.contains("invalid"), "got: {}", r.message);
}

#[test]
fn test_command_check_timeout_fails() {
    let r = cmd("sleep 5", Some("exit_code_0"), CommandOutcome::TimedOut("1s".to_owned()));
    assert!(!r.passed);
    assert!(r.message.to_lowercase().contains("timed out"), "got: {}", r.message);
    assert_eq!(r.message, "Command timed out after 1s");
}

#[test]
fn test_command_check_captures_stdout_and_stderr() {
    let r = cmd("echo out && echo err >&2", Some("exit_code_0"), exited(0, "out\n", "err\n"));
    assert!(r.message.contains("out") || r.message.contains("stdout"), "got: {}", r.message);
    assert!(r.message.contains("stderr: err"));
}

#[test]
fn test_command_check_unknown_expect_fails() {
    let r = cmd("true", Some("exit_code_7"), exited(0, "", ""));
    assert!(!r.passed);
    assert_eq!(r.message, "Unknown expect value: exit_code_7");
}

#[test]
fn test_command_check_signal_exit_reads_minus_one() {
    let outcome = CommandOutcome::Exited { code: None, stdout: Vec::new(), stderr: Vec::new() };
    let r = cmd("kill -9 $$", None, outcome);
    assert!(!r.passed);
    assert!(r.message.contains("got exit_code=-1"));
}

#[test]
fn test_command_check_spawn_failure() {
    let r = cmd("nope", None, CommandOutcome::SpawnFailed("no such file".to_owned()));
    assert!(!r.passed);
    assert_eq!(r.message, "Failed to spawn command: no such file");
}

#[test]
fn test_file_exists_check_passes_for_existing_file() {
    let r = file_exists_result("hello.txt", "/tmp/w/hello.txt", true, 0);
    assert!(r.passed, "expected pass, got: {}", r.message);
    assert!(r.message.contains("exists"));
}

#[test]
fn test_file_exists_check_fails_for_missing_file() {
    let r = file_exists_result("missing.txt", "/tmp/w/missing.txt", false, 0);
    assert!(!r.passed);
    assert!(r.message.contains("not found") || r.message.contains("missing"));
}

#[test]
fn test_file_contains_literal_passes() {
    let r = file_contains_result("lib.rs", "fn main", "/w/lib.rs", Ok("fn main() {}".to_owned()), 0);
    assert!(r.passed, "expected pass, got: {}", r.message);
}

#[test]
fn test_file_contains_literal_fails() {
    let r = file_contains_result("lib.rs", "fn main", "/w/lib.rs", Ok("fn helper() {}".to_owned()), 0);
    assert!(!r.passed);
}

#[test]
fn test_file_contains_regex_passes() {
    let r = file_contains_result(
        "Cargo.toml",
        r"/version = \d+\.\d+\.\d+/",
        "/w/Cargo.toml",
        Ok("version = 1.2.3".to_owned()),
        0,
    );
    assert!(r.passed, "expected pass, got: {}", r.message);
}

#[test]
fn test_file_contains_invalid_regex_fails() {
    let r = file_contains_result("lib.rs", "/[unclosed/", "/w/lib.rs", Ok("some content".to_owned()), 0);
    assert!(!r.passed);
    assert!(r.message.contains("Invalid regex"), "expected regex error, got: {}", r.message);
}

#[test]
fn test_file_contains_unreadable_file_fails() {
    let r = file_contains_result("lib.rs", "x", "/w/lib.rs", Err("denied".to_owned()), 0);
    assert!(!r.passed);
    assert_eq!(r.message, "Cannot read file: /w/lib.rs: denied");
}

#[test]
fn test_file_not_contains_passes_when_absent() {
    let r = file_not_contains_result("lib.rs", "unsafe", Some("fn helper() {}".to_owned()), 0);
    assert!(r.passed, "expected pass, got: {}", r.message);
}

#[test]
fn test_file_not_contains_fails_when_present() {
    let r = file_not_contains_result("lib.rs", "unsafe", Some("unsafe { }".to_owned()), 0);
    assert!(!r.passed);
    assert!(r.message.contains("unexpectedly"));
}

#[test]
fn test_file_not_contains_passes_when_file_missing() {
    let r = file_not_contains_result("nonexistent.txt", "pattern", None, 0);
    assert!(r.passed, "expected pass, got: {}", r.message);
    assert!(r.message.contains("trivially") || r.message.contains("not found"));
}

#[test]
fn test_node_status_check_passes_matching_status() {
    let t = test_tracker(&["node.a"]);
    let r = run_node_status_check("node.a", "ready", &t, 0);
    assert!(r.passed, "expected pass, got: {}", r.message);
}

#[test]
fn test_node_status_check_fails_mismatched_status() {
    let t = test_tracker(&["node.a"]);
    let r = run_node_status_check("node.a", "completed", &t, 0);
    assert!(!r.passed);
    assert!(r.message.contains("ready"));
    assert!(r.message.contains("completed"));
}

#[test]
fn test_node_status_check_fails_unknown_node() {
    let t = test_tracker(&["node.a"]);
    let r = run_node_status_check("node.unknown", "ready", &t, 0);
    assert!(!r.passed);
    assert!(r.message.contains("not found"), "expected 'not found', got: {}", r.message);
}

#[test]
fn test_node_status_check_ignores_case_and_blanks() {
    let t = test_tracker(&["node.a"]);
    let r = run_node_status_check("node.a", " READY ", &t, 0);
    assert!(r.passed, "got: {}", r.message);
}

#[test]
fn test_verify_node_all_pass_returns_true() {
    let node = node_with_checks("node.x", vec![file_exists("a.txt"), file_exists("b.txt")]);
    let result = drive(&node, FailStrategy::RunAll, &["a.txt", "b.txt"]);
    assert!(result.all_passed);
    assert_eq!(result.checks.len(), 2);
}

#[test]
fn test_verify_node_any_fail_returns_false() {
    let node = node_with_checks("node.x", vec![file_exists("exists.txt"), file_exists("missing.txt")]);
    let result = drive(&node, FailStrategy::RunAll, &["exists.txt"]);
    assert!(!result.all_passed);
    assert_eq!(result.checks.len(), 2);
    assert!(result.checks[0].passed);
    assert!(!result.checks[1].passed);
}

#[test]
fn test_verify_node_no_checks_returns_true() {
    let node = node_with_checks("node.x", vec![]);
    let result = drive(&node, FailStrategy::RunAll, &[]);
    assert!(result.all_passed);
    assert!(result.checks.is_empty());
}

#[test]
fn test_verify_node_fail_fast_stops_early() {
    let node = node_with_checks(
        "node.x",
        vec![file_exists("missing1.txt"), file_exists("missing2.txt"), file_exists("missing3.txt")],
    );
    let result = drive(&node, FailStrategy::FailFast, &[]);
    assert!(!result.all_passed);
    assert_eq!(result.checks.len(), 1, "FailFast should stop after first failure");
}

#[test]
fn test_match_pattern_literal_found() {
    assert_eq!(match_pattern("hello world", "world"), Ok(true));
}

#[test]
fn test_match_pattern_regex_found() {
    assert_eq!(match_pattern("v1.2.3", r"/v\d+/"), Ok(true));
}

#[test]
fn test_match_pattern_literal_missing_and_bad_regex() {
    assert_eq!(match_pattern("hello", "/x"), Ok(false));
    assert!(match_pattern("hello", "/(/").is_err());
    assert_eq!(match_pattern("", ""), Ok(true));
}

fn make_check_result(check: VerifyCheck, passed: bool, message: &str) -> CheckResult {
    CheckResult { check, passed, message: message.to_owned(), duration_ms: 2 }
}

#[test]
fn test_format_verify_log_all_passed() {
    let result = VerifyResult {
        node_id: "node.x".to_owned(),
        checks: vec![
            make_check_result(
                VerifyCheck::Command { run: "echo hello".to_owned(), expect: None },
                true,
                "Command succeeded: exit_code=0",
            ),
            make_check_result(file_exists("src/main.rs"), true, "File exists: /path/src/main.rs"),
        ],
        all_passed: true,
    };
    let log = format_verify_log(&result);
    assert!(log.contains("2/2 checks passed"), "got: {}", log);
    assert!(log.contains("[PASS]"));
    assert!(!log.contains("[FAIL]"));
}

#[test]
fn test_format_verify_log_with_failure() {
    let result = VerifyResult {
        node_id: "node.x".to_owned(),
        checks: vec![
            make_check_result(
                VerifyCheck::Command { run: "echo hello".to_owned(), expect: None },
                true,
                "Command succeeded: exit_code=0",
            ),
            make_check_result(file_exists("src/missing.rs"), false, "File not found: /path/src/missing.rs"),
        ],
        all_passed: false,
    };
    let log = format_verify_log(&result);
    assert!(log.contains("1/2 checks passed"), "got: {}", log);
    assert!(log.contains("[PASS]"));
    assert!(log.contains("[FAIL]"));
    assert!(log.contains("File not found"));
}

#[test]
fn test_check_label_forms() {
    assert_eq!(check_label(&file_exists("a.txt")), "file_exists: a.txt");
    let ns = VerifyCheck::NodeStatus { node: "n".to_owned(), status: "ready".to_owned() };
    assert_eq!(check_label(&ns), "node_status: n == ready");
}

#[test]
fn test_initialized_state_is_key_ordered() {
    let t = test_tracker(&["b", "a"]);
    let nodes: &KeyedMap<_> = &t.state().nodes;
    assert_eq!(nodes.key_at(0), "a");
    assert_eq!(nodes.key_at(1), "b");
}

fn make_result(all_passed: bool) -> VerifyResult {
    VerifyResult { node_id: "setup".to_owned(), checks: vec![], all_passed }
}

#[test]
fn test_exit_code_all_pass() {
    assert_eq!(verify_exit_code(&vec![make_result(true)]), 0);
}

#[test]
fn test_exit_code_any_fail() {
    assert_eq!(verify_exit_code(&vec![make_result(true), make_result(false)]), 1);
}

#[test]
fn test_exit_code_no_checks() {
    let nodes = vec![node_with_checks("a", vec![])];
    let targets = verify_targets(&nodes, None, true).unwrap();
    assert!(targets.is_empty());
    assert_eq!(verify_exit_code(&vec![]), 2);
}

#[test]
fn test_verify_targets() {
    let nodes = vec![
        node_with_checks("a", vec![file_exists("x")]),
        node_with_checks("b", vec![]),
        node_with_checks("c", vec![file_exists("y")]),
    ];
    assert_eq!(verify_targets(&nodes, None, true).unwrap(), vec![0, 2]);
    assert_eq!(verify_targets(&nodes, Some("b"), false).unwrap(), vec![1]);
    assert_eq!(verify_targets(&nodes, Some("z"), true).unwrap_err(), "error: node 'z' not found in file");
    assert_eq!(verify_targets(&nodes, None, false).unwrap_err(), "error: specify --node <id> or --all");
}

#[test]
fn test_past_limit_and_remaining_budget() {
    assert!(!past_limit(5, 5));
    assert!(past_limit(6, 5));
    assert_eq!(remaining_ns(2, 500_000_000), 2 * NANOS_PER_SEC - 500_000_000);
    assert_eq!(remaining_ns(1, NANOS_PER_SEC), 0);
    assert_eq!(remaining_ns(1, 3 * NANOS_PER_SEC), 0);
}

#[test]
fn test_verify_run_expects_only_the_next_check() {
    let node = node_with_checks("node.x", vec![file_exists("a.txt"), file_exists("b.txt")]);
    let mut run = VerifyRun::start(&node, FailStrategy::RunAll);
    let wrong = file_exists_result("b.txt", "/work/b.txt", true, 1);
    assert!(!run.expects(&wrong));
    let right = file_exists_result("a.txt", "/work/a.txt", true, 1);
    assert!(run.expects(&right));
    run.record(right);
    assert!(run.expects(&wrong));
    run.record(wrong);
    assert!(!run.expects(&file_exists_result("a.txt", "/work/a.txt", true, 1)));
    let result = run.finish();
    assert_eq!(result.checks.len(), 2);
    assert!(result.all_passed);
}
