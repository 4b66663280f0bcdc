use agm_cli::runtime::agent::{
    action_done_message, containment_error, create_conflict, edited_content, file_target, has_dotdot, is_shell_command,
    missing_field_error, next_block, shell_agent_response, shell_result, within_dir, ShellAgent,
};
use agm_cli::runtime::checks::CommandOutcome;
use agm_cli::runtime::model::{CodeAction, CodeBlock};

fn make_code_block(action: CodeAction, body: &str, target: Option<&str>) -> CodeBlock {
    CodeBlock {
        lang: Some("text".to_owned()),
        target: target.map(str::to_owned),
        action,
        body: body.to_owned(),
        old: None,
        anchor: None,
    }
}

fn exited(code: i32, stdout: &str, stderr: &str) -> CommandOutcome {
    CommandOutcome::Exited { code: Some(code), stdout: stdout.as_bytes().to_vec(), stderr: stderr.as_bytes().to_vec() }
}

#[test]
fn test_shell_agent_name_returns_shell_agent() {
    assert_eq!(ShellAgent.name(), "shell-agent");
}

#[test]
fn agent_test_shell_agent_execute_echo_captures_output() {
    let out = shell_result("echo hello", &exited(0, "hello\n", "")).unwrap();
    assert!(out.contains("hello"), "output: {out}");
    let resp = shell_agent_response(&vec![Ok(out)], 5);
    assert!(resp.success, "expected success");
    assert!(resp.output.contains("hello"));
}

#[test]
fn agent_test_shell_agent_execute_nonzero_exit_returns_failure() {
    let r = shell_result("exit 1", &exited(1, "", ""));
    let resp = shell_agent_response(&vec![r], 5);
    assert!(!resp.success);
    assert_eq!(resp.output, "Error in block 1: Command exited with code 1: exit 1\n");
}

#[test]
fn test_shell_agent_execute_timeout_kills_process() {
    let r = shell_result("sleep 30", &CommandOutcome::TimedOut("1s".to_owned()));
    let resp = shell_agent_response(&vec![r], 1000);
    assert!(!resp.success);
    assert!(resp.output.contains("timed out") || resp.output.contains("Error"), "output: {}", resp.output);
}

#[test]
fn test_shell_result_stderr_marker() {
    assert_eq!(shell_result("x", &exited(0, "out", "err")).unwrap(), "out\n[stderr]\nerr");
    assert_eq!(shell_result("x", &exited(0, "out", "")).unwrap(), "out");
}

#[test]
fn test_shell_agent_create_action_writes_file() {
    let block = make_code_block(CodeAction::Create, "hello world", Some("out.txt"));
    assert_eq!(file_target(&block).unwrap(), "out.txt");
    assert_eq!(action_done_message(block.action, "/w/out.txt"), "Created /w/out.txt");
}

#[test]
fn test_shell_agent_append_action_appends_to_file() {
    assert_eq!(action_done_message(CodeAction::Append, "/w/file.txt"), "Appended to /w/file.txt");
}

#[test]
fn test_shell_agent_prepend_action_prepends_to_file() {
    let block = make_code_block(CodeAction::Prepend, "line1\n", Some("file.txt"));
    assert_eq!(edited_content(&block, "/w/file.txt", "line2\n").unwrap(), "line1\nline2\n");
}

#[test]
fn test_shell_agent_replace_action_replaces_text() {
    let mut block = make_code_block(CodeAction::Replace, "REPLACED", Some("file.txt"));
    block.old = Some("bar".to_owned());
    assert_eq!(edited_content(&block, "/w/file.txt", "foo bar baz").unwrap(), "foo REPLACED baz");
}

#[test]
fn test_shell_agent_replace_action_old_not_found_fails() {
    let mut block = make_code_block(CodeAction::Replace, "new", Some("file.txt"));
    block.old = Some("notpresent".to_owned());
    let e = edited_content(&block, "/w/file.txt", "foo bar baz").unwrap_err();
    assert_eq!(e, "Replace failed: 'old' text not found in /w/file.txt");
}

#[test]
fn test_shell_agent_replace_action_old_multiple_matches_fails() {
    let mut block = make_code_block(CodeAction::Replace, "bar", Some("file.txt"));
    block.old = Some("foo".to_owned());
    let e = edited_content(&block, "/w/file.txt", "foo foo foo").unwrap_err();
    assert_eq!(e, "Replace failed: 'old' text found 3 times in /w/file.txt (must be exactly 1)");
}

#[test]
fn test_shell_agent_replace_without_old_fails() {
    let block = make_code_block(CodeAction::Replace, "bar", Some("file.txt"));
    assert_eq!(edited_content(&block, "/w/file.txt", "foo").unwrap_err(), "Replace action requires 'old' field");
}

#[test]
fn test_shell_agent_insert_before_action_inserts_correctly() {
    let mut block = make_code_block(CodeAction::InsertBefore, "PREFIX ", Some("file.txt"));
    block.anchor = Some("ANCHOR".to_owned());
    assert_eq!(edited_content(&block, "/w/file.txt", "ANCHOR rest").unwrap(), "PREFIX ANCHOR rest");
}

#[test]
fn test_shell_agent_insert_after_action_inserts_correctly() {
    let mut block = make_code_block(CodeAction::InsertAfter, " SUFFIX", Some("file.txt"));
    block.anchor = Some("ANCHOR".to_owned());
    assert_eq!(edited_content(&block, "/w/file.txt", "ANCHOR rest").unwrap(), "ANCHOR SUFFIX rest");
}

#[test]
fn test_shell_agent_insert_anchor_missing_fails() {
    let mut block = make_code_block(CodeAction::InsertAfter, "x", Some("file.txt"));
    block.anchor = Some("NOPE".to_owned());
    assert_eq!(
        edited_content(&block, "/w/file.txt", "ANCHOR rest").unwrap_err(),
        "InsertAfter failed: anchor not found in /w/file.txt"
    );
}

#[test]
fn test_shell_agent_path_traversal_rejected() {
    let block = make_code_block(CodeAction::Create, "evil", Some("../../etc/passwd"));
    let e = file_target(&block).unwrap_err();
    assert!(e.contains(".."), "output should mention traversal: {e}");
    let resp = shell_agent_response(&vec![Err(e)], 0);
    assert!(!resp.success);
    assert!(resp.output.contains(".."));
}

#[test]
fn test_has_dotdot_components_only() {
    assert!(has_dotdot("a/../b"));
    assert!(has_dotdot(".."));
    assert!(!has_dotdot("a/..b/c"));
    assert!(!has_dotdot("a...b"));
}

#[test]
fn test_missing_target_is_refused() {
    let block = make_code_block(CodeAction::Full, "x", None);
    assert_eq!(file_target(&block).unwrap_err(), "Code block with action 'full' requires a target path");
}

#[test]
fn test_shell_agent_no_code_blocks_returns_success() {
    let resp = shell_agent_response(&Vec::new(), 0);
    assert!(resp.success);
    assert_eq!(resp.output, "");
}

#[test]
fn test_shell_agent_multiple_blocks_first_fail_stops() {
    let results = vec![Ok("one".to_owned()), Err("boom".to_owned()), Ok("three".to_owned())];
    let resp = shell_agent_response(&results, 0);
    assert!(!resp.success, "expected failure on first failing block");
    assert_eq!(resp.output, "one\nError in block 2: boom");
}

#[test]
fn test_is_shell_command_sh_no_target_true() {
    let block = CodeBlock {
        lang: Some("sh".to_owned()),
        target: None,
        action: CodeAction::Full,
        body: "echo hi".to_owned(),
        anchor: None,
        old: None,
    };
    assert!(is_shell_command(&block));
}

#[test]
fn test_is_shell_command_bash_with_target_false() {
    let block = CodeBlock {
        lang: Some("bash".to_owned()),
        target: Some("script.sh".to_owned()),
        action: CodeAction::Create,
        body: "echo hi".to_owned(),
        anchor: None,
        old: None,
    };
    assert!(!is_shell_command(&block));
}

#[test]
fn test_is_shell_command_rust_no_target_false() {
    let block = CodeBlock {
        lang: Some("rust".to_owned()),
        target: None,
        action: CodeAction::Full,
        body: "fn main() {}".to_owned(),
        anchor: None,
        old: None,
    };
    assert!(!is_shell_command(&block));
}

#[test]
fn test_missing_field_error_before_reading() {
    let replace = make_code_block(CodeAction::Replace, "bar", Some("file.txt"));
    assert_eq!(missing_field_error(&replace).as_deref(), Some("Replace action requires 'old' field"));
    let before = make_code_block(CodeAction::InsertBefore, "x", Some("file.txt"));
    assert_eq!(missing_field_error(&before).as_deref(), Some("InsertBefore action requires 'anchor' field"));
    let after = make_code_block(CodeAction::InsertAfter, "x", Some("file.txt"));
    assert_eq!(missing_field_error(&after).as_deref(), Some("InsertAfter action requires 'anchor' field"));
    let mut with_old = make_code_block(CodeAction::Replace, "bar", Some("file.txt"));
    with_old.old = Some("foo".to_owned());
    assert_eq!(missing_field_error(&with_old), None);
    let create = make_code_block(CodeAction::Create, "x", Some("file.txt"));
    assert_eq!(missing_field_error(&create), None);
}

#[test]
fn test_shell_result_decodes_invalid_utf8_lossily() {
    let outcome = CommandOutcome::Exited { code: Some(0), stdout: vec![0x66, 0xff, 0x67], stderr: vec![] };
    assert_eq!(shell_result("printf", &outcome).unwrap(), "f\u{fffd}g");
}

#[test]
fn test_next_block_stops_at_first_failure() {
    assert_eq!(next_block(&vec![], 0), None);
    assert_eq!(next_block(&vec![], 2), Some(0));
    assert_eq!(next_block(&vec![Ok("x".to_owned())], 3), Some(1));
    assert_eq!(next_block(&vec![Ok("x".to_owned()), Err("boom".to_owned())], 3), None);
    assert_eq!(next_block(&vec![Ok("x".to_owned()), Ok("y".to_owned())], 2), None);
}

#[test]
fn test_create_conflict_only_for_existing_create_target() {
    assert_eq!(
        create_conflict(CodeAction::Create, true, "out.txt"),
        Some("Target file already exists: out.txt".to_owned())
    );
    assert_eq!(create_conflict(CodeAction::Create, false, "out.txt"), None);
    assert_eq!(create_conflict(CodeAction::Append, true, "out.txt"), None);
}

#[test]
fn test_within_dir_compares_whole_components() {
    assert!(within_dir("/w/a/b", "/w"));
    assert!(within_dir("/w", "/w"));
    assert!(within_dir("/w//a/", "/w/"));
    assert!(!within_dir("/wx/a", "/w"));
    assert!(!within_dir("/a", "/w/a"));
    assert!(!within_dir("w/a", "/w"));
}

#[test]
fn test_containment_error_message() {
    assert_eq!(containment_error("x.txt", "/w", "/w/x.txt", "/w"), None);
    assert_eq!(
        containment_error("../x.txt", "/w", "/x.txt", "/w"),
        Some("Target path '../x.txt' resolves outside working directory '/w'".to_owned())
    );
}
