//! Verification checks of nodes.
//!
//! Running a command, testing a file's existence and reading a file happen
//! outside the library; it decides what each outcome means, runs the
//! `node_status` checks against the tracker, applies the fail strategy and
//! formats the log.

use vstd::prelude::*;

use crate::keyed::str_eq;
use crate::pattern::{regex_error, regex_finds, regex_search};
use crate::runtime::duration::{decimal, decimal_string};
use crate::runtime::model::{Node, VerifyCheck};
use crate::runtime::state::ExecutionTracker;
use crate::text::{
    chars_of, concat2, eq_ignore_ascii_case, eq_ignore_ascii_case_exec, find_sub, find_sub_exec, join,
    join_strings, lines, lossy_string, owned, push_str, split_lines, starts_with, starts_with_exec,
    string_of_range, string_views, trim, trim_str, utf8_lossy,
};

verus! {

/// Default timeout of command checks, in seconds.
pub const DEFAULT_TIMEOUT_SECS: u64 = 60;

/// Bytes kept of each output stream of a command check.
pub const MAX_OUTPUT_BYTES: usize = 4096;

/// What to do when a check fails.
#[derive(Debug, Clone, Copy, PartialEq, Eq, Structural)]
pub enum FailStrategy {
    /// Stop at the first failing check.
    FailFast,
    /// Run every check (the default).
    RunAll,
}

impl Default for FailStrategy {
    fn default() -> (r: FailStrategy)
        ensures
            r == FailStrategy::RunAll,
    {
        FailStrategy::RunAll
    }
}

/// Result of one check.
pub struct CheckResult {
    /// The check that ran.
    pub check: VerifyCheck,
    /// Whether it passed.
    pub passed: bool,
    /// What happened.
    pub message: String,
    /// Time spent, in milliseconds.
    pub duration_ms: u64,
}

/// Result of the checks of one node.
pub struct VerifyResult {
    /// The node verified.
    pub node_id: String,
    /// Results in the order the checks ran.
    pub checks: Vec<CheckResult>,
    /// Every check passed.
    pub all_passed: bool,
}

// ---------------------------------------------------------------------------
// Patterns
// ---------------------------------------------------------------------------

/// A pattern written between slashes (at least two characters) is a
/// regular expression; its inside is what is compiled.
pub open spec fn is_regex_pattern(p: Seq<char>) -> bool {
    p.len() >= 2 && p[0] == '/' && p[p.len() - 1] == '/'
}

/// Whether `content` matches `pattern`: a regular expression when written
/// `/.../`, else a literal substring; an error message for a regular
/// expression that does not compile.
pub open spec fn match_pattern_spec(content: Seq<char>, pattern: Seq<char>) -> Result<bool, Seq<char>> {
    if is_regex_pattern(pattern) {
        let re = pattern.subrange(1, pattern.len() - 1);
        match regex_error(re) {
            None => Ok(regex_finds(re, content)),
            Some(e) => Err("Invalid regex '"@ + re + "': "@ + e),
        }
    } else {
        Ok(find_sub(content, pattern) is Some)
    }
}

/// Whether `content` matches `pattern`.
pub fn match_pattern(content: &str, pattern: &str) -> (r: Result<bool, String>)
    ensures
        match r {
            Ok(b) => match_pattern_spec(content@, pattern@) == Ok::<bool, Seq<char>>(b),
            Err(m) => match_pattern_spec(content@, pattern@) == Err::<bool, Seq<char>>(m@),
        },
{
    let p = chars_of(pattern);
    let n = p.len();
    if n >= 2 && p[0] == '/' && p[n - 1] == '/' {
        let re = string_of_range(p.as_slice(), 1, n - 1);
        match regex_search(re.as_str(), content) {
            Ok(b) => Ok(b),
            Err(e) => {
                let mut m = owned("Invalid regex '");
                push_str(&mut m, re.as_str());
                push_str(&mut m, "': ");
                push_str(&mut m, e.as_str());
                Err(m)
            },
        }
    } else {
        let c = chars_of(content);
        let found = find_sub_exec(c.as_slice(), p.as_slice(), 0);
        Ok(found.is_some())
    }
}

// ---------------------------------------------------------------------------
// File checks
// ---------------------------------------------------------------------------

/// The result of a `file_exists` check of `file`, whose full path reads
/// `path`.
pub fn file_exists_result(file: &str, path: &str, exists: bool, duration_ms: u64) -> (r: CheckResult)
    ensures
        r.check == (VerifyCheck::FileExists { file: r.check->FileExists_file }),
        r.check->FileExists_file@ == file@,
        r.passed == exists,
        r.message@ == (if exists {
            "File exists: "@ + path@
        } else {
            "File not found: "@ + path@
        }),
        r.duration_ms == duration_ms,
{
    CheckResult {
        check: VerifyCheck::FileExists { file: owned(file) },
        passed: exists,
        message: if exists {
            concat2("File exists: ", path)
        } else {
            concat2("File not found: ", path)
        },
        duration_ms,
    }
}

/// `a`, `b`, `c`, `d` concatenated.
fn cat4(a: &str, b: &str, c: &str, d: &str) -> (r: String)
    ensures
        r@ == a@ + b@ + c@ + d@,
{
    let mut r = owned(a);
    push_str(&mut r, b);
    push_str(&mut r, c);
    push_str(&mut r, d);
    r
}

/// Passed flag and message of a `file_contains` check: `read` is the file's
/// text, or the message of the error that reading it gave.
pub open spec fn file_contains_outcome(
    file: Seq<char>,
    pattern: Seq<char>,
    path: Seq<char>,
    read: Result<Seq<char>, Seq<char>>,
) -> (bool, Seq<char>) {
    match read {
        Err(e) => (false, "Cannot read file: "@ + path + ": "@ + e),
        Ok(content) => match match_pattern_spec(content, pattern) {
            Ok(true) => (true, "File '"@ + file + "' contains pattern: "@ + pattern),
            Ok(false) => (false, "File '"@ + file + "' does not contain pattern: "@ + pattern),
            Err(m) => (false, m),
        },
    }
}

/// Views of a read outcome.
pub open spec fn read_view(read: Result<String, String>) -> Result<Seq<char>, Seq<char>> {
    match read {
        Ok(c) => Ok(c@),
        Err(e) => Err(e@),
    }
}

/// The result of a `file_contains` check.
pub fn file_contains_result(
    file: &str,
    pattern: &str,
    path: &str,
    read: Result<String, String>,
    duration_ms: u64,
) -> (r: CheckResult)
    ensures
        r.check is FileContains,
        r.check->FileContains_file@ == file@,
        r.check->FileContains_pattern@ == pattern@,
        (r.passed, r.message@) == file_contains_outcome(file@, pattern@, path@, read_view(read)),
        r.duration_ms == duration_ms,
{
    let check = VerifyCheck::FileContains { file: owned(file), pattern: owned(pattern) };
    let (passed, message) = match read {
        Err(e) => (false, cat4("Cannot read file: ", path, ": ", e.as_str())),
        Ok(content) => match match_pattern(content.as_str(), pattern) {
            Ok(true) => (true, cat4("File '", file, "' contains pattern: ", pattern)),
            Ok(false) => (false, cat4("File '", file, "' does not contain pattern: ", pattern)),
            Err(m) => (false, m),
        },
    };
    CheckResult { check, passed, message, duration_ms }
}

/// Passed flag and message of a `file_not_contains` check: `read` is the
/// file's text, or `None` when it could not be read (then the check
/// passes).
pub open spec fn file_not_contains_outcome(file: Seq<char>, pattern: Seq<char>, read: Option<Seq<char>>) -> (
    bool,
    Seq<char>,
) {
    match read {
        None => (true, "File '"@ + file + "' not found (check passes trivially)"@),
        Some(content) => match match_pattern_spec(content, pattern) {
            Ok(false) => (true, "File '"@ + file + "' does not contain pattern: "@ + pattern),
            Ok(true) => (false, "File '"@ + file + "' unexpectedly contains pattern: "@ + pattern),
            Err(m) => (false, m),
        },
    }
}

/// The result of a `file_not_contains` check.
pub fn file_not_contains_result(file: &str, pattern: &str, read: Option<String>, duration_ms: u64) -> (r: CheckResult)
    ensures
        r.check is FileNotContains,
        r.check->FileNotContains_file@ == file@,
        r.check->FileNotContains_pattern@ == pattern@,
        (r.passed, r.message@) == file_not_contains_outcome(
            file@,
            pattern@,
            match read {
                Some(c) => Some(c@),
                None => None,
            },
        ),
        r.duration_ms == duration_ms,
{
    let check = VerifyCheck::FileNotContains { file: owned(file), pattern: owned(pattern) };
    let (passed, message) = match read {
        None => (true, surround3("File '", file, "' not found (check passes trivially)")),
        Some(content) => match match_pattern(content.as_str(), pattern) {
            Ok(false) => (true, cat4("File '", file, "' does not contain pattern: ", pattern)),
            Ok(true) => (false, cat4("File '", file, "' unexpectedly contains pattern: ", pattern)),
            Err(m) => (false, m),
        },
    };
    CheckResult { check, passed, message, duration_ms }
}

fn surround3(a: &str, b: &str, c: &str) -> (r: String)
    ensures
        r@ == a@ + b@ + c@,
{
    let mut r = owned(a);
    push_str(&mut r, b);
    push_str(&mut r, c);
    r
}

// ---------------------------------------------------------------------------
// Node status checks
// ---------------------------------------------------------------------------

/// Passed flag and message of a `node_status` check of `node` against
/// `expected`, given the node's state in the tracker.
pub open spec fn node_status_outcome(
    node: Seq<char>,
    expected: Seq<char>,
    actual: Option<crate::runtime::state::ExecutionStatus>,
) -> (bool, Seq<char>) {
    match actual {
        None => (false, "Node '"@ + node + "' not found in execution state"@),
        Some(st) => {
            let a = st.spec_name();
            if eq_ignore_ascii_case(a, trim(expected)) {
                (true, "Node '"@ + node + "' has status '"@ + a + "' (expected '"@ + expected + "')"@)
            } else {
                (false, "Node '"@ + node + "' has status '"@ + a + "', expected '"@ + expected + "'"@)
            }
        },
    }
}

/// Runs a `node_status` check: the node's status in the tracker must equal
/// `expected` (trimmed), ignoring ASCII case.
pub fn run_node_status_check(node: &str, expected: &str, tracker: &ExecutionTracker, duration_ms: u64) -> (r: CheckResult)
    requires
        tracker.wf(),
    ensures
        r.check is NodeStatus,
        r.check->NodeStatus_node@ == node@,
        r.check->NodeStatus_status@ == expected@,
        (r.passed, r.message@) == node_status_outcome(
            node@,
            expected@,
            if tracker.nodes().dom().contains(node@) {
                Some(tracker.nodes()[node@].execution_status)
            } else {
                None
            },
        ),
        r.duration_ms == duration_ms,
{
    let check = VerifyCheck::NodeStatus { node: owned(node), status: owned(expected) };
    match tracker.node_state(node) {
        None => CheckResult {
            check,
            passed: false,
            message: surround3("Node '", node, "' not found in execution state"),
            duration_ms,
        },
        Some(st) => {
            let actual = st.execution_status.as_str();
            let want = trim_str(expected);
            let passed = eq_ignore_ascii_case_exec(actual, want.as_str());
            let mut m = owned("Node '");
            push_str(&mut m, node);
            push_str(&mut m, "' has status '");
            push_str(&mut m, actual);
            if passed {
                push_str(&mut m, "' (expected '");
                push_str(&mut m, expected);
                push_str(&mut m, "')");
            } else {
                push_str(&mut m, "', expected '");
                push_str(&mut m, expected);
                push_str(&mut m, "'");
            }
            CheckResult { check, passed, message: m, duration_ms }
        },
    }
}

// ---------------------------------------------------------------------------
// Command checks
// ---------------------------------------------------------------------------

/// Nanoseconds in a second.
pub const NANOS_PER_SEC: u128 = 1_000_000_000;

/// Whether a command that has run for `elapsed_ns` nanoseconds is past its
/// limit of `limit_ns` (and is to be killed).
pub fn past_limit(elapsed_ns: u128, limit_ns: u128) -> (r: bool)
    ensures
        r == (elapsed_ns > limit_ns),
{
    elapsed_ns > limit_ns
}

/// What is left of a budget of `timeout_secs` seconds after `elapsed_ns`
/// nanoseconds, in nanoseconds: nothing once it is spent.
pub fn remaining_ns(timeout_secs: u64, elapsed_ns: u128) -> (r: u128)
    ensures
        r == (if elapsed_ns < timeout_secs * NANOS_PER_SEC {
            timeout_secs * NANOS_PER_SEC - elapsed_ns
        } else {
            0
        }),
{
    let budget: u128 = timeout_secs as u128 * NANOS_PER_SEC;
    if elapsed_ns < budget {
        budget - elapsed_ns
    } else {
        0
    }
}

/// How running a check's command went.
pub enum CommandOutcome {
    /// The process could not be started; the error's message.
    SpawnFailed(String),
    /// The process ran past the timeout and was killed; the timeout as
    /// written in the message.
    TimedOut(String),
    /// Waiting for the process failed; the error's message.
    WaitFailed(String),
    /// Collecting the output failed; the error's message.
    OutputFailed(String),
    /// The process exited: its exit code (`None` when killed by a signal)
    /// and its output streams.
    Exited { code: Option<i32>, stdout: Vec<u8>, stderr: Vec<u8> },
}

/// Decimal text of a signed integer.
pub open spec fn signed_decimal(n: int) -> Seq<char> {
    if n < 0 {
        "-"@ + decimal((-n) as nat)
    } else {
        decimal(n as nat)
    }
}

/// Decimal text of an `i32`.
pub fn signed_decimal_string(n: i32) -> (r: String)
    ensures
        r@ == signed_decimal(n as int),
{
    if n < 0 {
        let m: u64 = (-(n as i64)) as u64;
        concat2("-", decimal_string(m).as_str())
    } else {
        decimal_string(n as u64)
    }
}

/// The first `MAX_OUTPUT_BYTES` bytes of a stream.
pub open spec fn kept_bytes(b: Seq<u8>) -> Seq<u8> {
    if b.len() > MAX_OUTPUT_BYTES {
        b.take(MAX_OUTPUT_BYTES as int)
    } else {
        b
    }
}

/// A stream as the message shows it: its kept bytes decoded, marked when
/// cut, `(empty)` when empty.
pub open spec fn stream_display(b: Seq<u8>) -> Seq<char> {
    let s = utf8_lossy(kept_bytes(b));
    if b.len() > MAX_OUTPUT_BYTES {
        s + "... (truncated)"@
    } else if s.len() == 0 {
        "(empty)"@
    } else {
        s
    }
}

/// Whether the command passed for the `expect` value, given its exit code
/// and its (kept) output; an error message for an unusable `expect`.
pub open spec fn command_passed(expect: Seq<char>, code: int, combined: Seq<char>) -> Result<bool, Seq<char>> {
    if expect == "exit_code_0"@ {
        Ok(code == 0)
    } else if expect == "exit_code_nonzero"@ {
        Ok(code != 0)
    } else if starts_with(expect, "output_contains: "@) {
        Ok(find_sub(combined, trim(expect.skip(17))) is Some)
    } else if starts_with(expect, "output_matches: "@) {
        let re = trim(expect.skip(16));
        match regex_error(re) {
            None => Ok(regex_finds(re, combined)),
            Some(e) => Err("Invalid regex '"@ + re + "': "@ + e),
        }
    } else {
        Err("Unknown expect value: "@ + expect)
    }
}

/// Passed flag and message of a command check.
pub open spec fn command_outcome(expect: Option<Seq<char>>, outcome: CommandOutcome) -> (bool, Seq<char>) {
    match outcome {
        CommandOutcome::SpawnFailed(e) => (false, "Failed to spawn command: "@ + e@),
        CommandOutcome::TimedOut(t) => (false, "Command timed out after "@ + t@),
        CommandOutcome::WaitFailed(e) => (false, "Command error while waiting: "@ + e@),
        CommandOutcome::OutputFailed(e) => (false, "Command error: "@ + e@),
        CommandOutcome::Exited { code, stdout, stderr } => {
            let exp = match expect {
                Some(x) => x,
                None => "exit_code_0"@,
            };
            let c: int = match code {
                Some(v) => v as int,
                None => -1,
            };
            let combined = utf8_lossy(kept_bytes(stdout@)) + utf8_lossy(kept_bytes(stderr@));
            let tail = "\nstdout: "@ + stream_display(stdout@) + "\nstderr: "@ + stream_display(stderr@);
            match command_passed(exp, c, combined) {
                Err(m) => (false, m),
                Ok(true) => (true, "Command succeeded: exit_code="@ + signed_decimal(c) + tail),
                Ok(false) => (false, "Command failed: expected "@ + exp + ", got exit_code="@ + signed_decimal(c) + tail),
            }
        },
    }
}

fn kept_prefix(b: &Vec<u8>) -> (r: Vec<u8>)
    ensures
        r@ == kept_bytes(b@),
{
    let n = if b.len() > MAX_OUTPUT_BYTES {
        MAX_OUTPUT_BYTES
    } else {
        b.len()
    };
    let mut r: Vec<u8> = Vec::new();
    let mut i: usize = 0;
    while i < n
        invariant
            i <= n <= b@.len(),
            n == (if b@.len() > MAX_OUTPUT_BYTES {
                MAX_OUTPUT_BYTES as int
            } else {
                b@.len() as int
            }),
            r@ == b@.take(i as int),
        decreases n - i,
    {
        r.push(b[i]);
        assert(b@.take(i + 1) =~= b@.take(i as int).push(b@[i as int]));
        i += 1;
    }
    if b.len() <= MAX_OUTPUT_BYTES {
        assert(b@.take(n as int) =~= b@);
    }
    r
}

fn stream_text(b: &Vec<u8>) -> (r: String)
    ensures
        r@ == stream_display(b@),
{
    let kept = kept_prefix(b);
    let s = lossy_string(kept.as_slice());
    if b.len() > MAX_OUTPUT_BYTES {
        concat2(s.as_str(), "... (truncated)")
    } else if s.as_str().is_empty() {
        owned("(empty)")
    } else {
        s
    }
}

fn expect_passed(expect: &str, code: i32, combined: &str) -> (r: Result<bool, String>)
    ensures
        match r {
            Ok(b) => command_passed(expect@, code as int, combined@) == Ok::<bool, Seq<char>>(b),
            Err(m) => command_passed(expect@, code as int, combined@) == Err::<bool, Seq<char>>(m@),
        },
{
    let e = chars_of(expect);
    let oc = chars_of("output_contains: ");
    let om = chars_of("output_matches: ");
    proof {
        reveal_strlit("output_contains: ");
        reveal_strlit("output_matches: ");
    }
    if crate::keyed::str_eq(expect, "exit_code_0") {
        Ok(code == 0)
    } else if crate::keyed::str_eq(expect, "exit_code_nonzero") {
        Ok(code != 0)
    } else if starts_with_exec(e.as_slice(), oc.as_slice()) {
        let rest = string_of_range(e.as_slice(), 17, e.len());
        assert(e@.subrange(17, e@.len() as int) =~= expect@.skip(17));
        let text = trim_str(rest.as_str());
        let c = chars_of(combined);
        let t = chars_of(text.as_str());
        Ok(find_sub_exec(c.as_slice(), t.as_slice(), 0).is_some())
    } else if starts_with_exec(e.as_slice(), om.as_slice()) {
        let rest = string_of_range(e.as_slice(), 16, e.len());
        assert(e@.subrange(16, e@.len() as int) =~= expect@.skip(16));
        let re = trim_str(rest.as_str());
        match regex_search(re.as_str(), combined) {
            Ok(b) => Ok(b),
            Err(msg) => {
                let mut m = owned("Invalid regex '");
                push_str(&mut m, re.as_str());
                push_str(&mut m, "': ");
                push_str(&mut m, msg.as_str());
                Err(m)
            },
        }
    } else {
        Err(concat2("Unknown expect value: ", expect))
    }
}

/// The result of a `command` check, from how running the command went.
pub fn command_check_result(run: &str, expect: Option<String>, outcome: CommandOutcome, duration_ms: u64) -> (r: CheckResult)
    ensures
        r.check is Command,
        r.check->Command_run@ == run@,
        r.check->Command_expect == expect,
        (r.passed, r.message@) == command_outcome(
            match expect {
                Some(x) => Some(x@),
                None => None,
            },
            outcome,
        ),
        r.duration_ms == duration_ms,
{
    let (passed, message) = match &outcome {
        CommandOutcome::SpawnFailed(e) => (false, concat2("Failed to spawn command: ", e.as_str())),
        CommandOutcome::TimedOut(t) => (false, concat2("Command timed out after ", t.as_str())),
        CommandOutcome::WaitFailed(e) => (false, concat2("Command error while waiting: ", e.as_str())),
        CommandOutcome::OutputFailed(e) => (false, concat2("Command error: ", e.as_str())),
        CommandOutcome::Exited { code, stdout, stderr } => {
            let exp: &str = match &expect {
                Some(x) => x.as_str(),
                None => "exit_code_0",
            };
            let c: i32 = match code {
                Some(v) => *v,
                None => -1,
            };
            let so = lossy_string(kept_prefix(stdout).as_slice());
            let se = lossy_string(kept_prefix(stderr).as_slice());
            let combined = concat2(so.as_str(), se.as_str());
            let mut tail = owned("\nstdout: ");
            push_str(&mut tail, stream_text(stdout).as_str());
            push_str(&mut tail, "\nstderr: ");
            push_str(&mut tail, stream_text(stderr).as_str());
            match expect_passed(exp, c, combined.as_str()) {
                Err(m) => (false, m),
                Ok(true) => {
                    let mut m = owned("Command succeeded: exit_code=");
                    push_str(&mut m, signed_decimal_string(c).as_str());
                    push_str(&mut m, tail.as_str());
                    (true, m)
                },
                Ok(false) => {
                    let mut m = owned("Command failed: expected ");
                    push_str(&mut m, exp);
                    push_str(&mut m, ", got exit_code=");
                    push_str(&mut m, signed_decimal_string(c).as_str());
                    push_str(&mut m, tail.as_str());
                    (false, m)
                },
            }
        },
    };
    CheckResult { check: VerifyCheck::Command { run: owned(run), expect }, passed, message, duration_ms }
}

// ---------------------------------------------------------------------------
// Running the checks of a node
// ---------------------------------------------------------------------------

/// The text of an optional string.
pub open spec fn opt_text(o: Option<String>) -> Option<Seq<char>> {
    match o {
        Some(s) => Some(s@),
        None => None,
    }
}

/// Two checks are the same check: same kind, same texts.
pub open spec fn same_check(a: VerifyCheck, b: VerifyCheck) -> bool {
    match (a, b) {
        (VerifyCheck::Command { run: r1, expect: e1 }, VerifyCheck::Command { run: r2, expect: e2 }) => r1@ == r2@
            && opt_text(e1) == opt_text(e2),
        (VerifyCheck::FileExists { file: f1 }, VerifyCheck::FileExists { file: f2 }) => f1@ == f2@,
        (
            VerifyCheck::FileContains { file: f1, pattern: p1 },
            VerifyCheck::FileContains { file: f2, pattern: p2 },
        ) => f1@ == f2@ && p1@ == p2@,
        (
            VerifyCheck::FileNotContains { file: f1, pattern: p1 },
            VerifyCheck::FileNotContains { file: f2, pattern: p2 },
        ) => f1@ == f2@ && p1@ == p2@,
        (VerifyCheck::NodeStatus { node: n1, status: s1 }, VerifyCheck::NodeStatus { node: n2, status: s2 }) => n1@
            == n2@ && s1@ == s2@,
        _ => false,
    }
}

/// Whether two checks are the same check.
pub fn is_same_check(a: &VerifyCheck, b: &VerifyCheck) -> (r: bool)
    ensures
        r == same_check(*a, *b),
{
    match (a, b) {
        (VerifyCheck::Command { run: r1, expect: e1 }, VerifyCheck::Command { run: r2, expect: e2 }) => {
            str_eq(r1.as_str(), r2.as_str()) && match (e1, e2) {
                (Some(x), Some(y)) => str_eq(x.as_str(), y.as_str()),
                (None, None) => true,
                _ => false,
            }
        },
        (VerifyCheck::FileExists { file: f1 }, VerifyCheck::FileExists { file: f2 }) => str_eq(
            f1.as_str(),
            f2.as_str(),
        ),
        (
            VerifyCheck::FileContains { file: f1, pattern: p1 },
            VerifyCheck::FileContains { file: f2, pattern: p2 },
        ) => str_eq(f1.as_str(), f2.as_str()) && str_eq(p1.as_str(), p2.as_str()),
        (
            VerifyCheck::FileNotContains { file: f1, pattern: p1 },
            VerifyCheck::FileNotContains { file: f2, pattern: p2 },
        ) => str_eq(f1.as_str(), f2.as_str()) && str_eq(p1.as_str(), p2.as_str()),
        (VerifyCheck::NodeStatus { node: n1, status: s1 }, VerifyCheck::NodeStatus { node: n2, status: s2 }) => str_eq(
            n1.as_str(),
            n2.as_str(),
        ) && str_eq(s1.as_str(), s2.as_str()),
        _ => false,
    }
}

/// Checks of a node being run in order, with the results so far.
pub struct VerifyRun {
    node_id: String,
    checks: Vec<VerifyCheck>,
    strategy: FailStrategy,
    results: Vec<CheckResult>,
}

impl VerifyRun {
    /// The checks to run.
    pub closed spec fn spec_checks(&self) -> Seq<VerifyCheck> {
        self.checks@
    }

    /// The results so far, in order.
    pub closed spec fn spec_results(&self) -> Seq<CheckResult> {
        self.results@
    }

    /// The fail strategy.
    pub closed spec fn spec_strategy(&self) -> FailStrategy {
        self.strategy
    }

    /// The node verified.
    pub closed spec fn spec_node_id(&self) -> Seq<char> {
        self.node_id@
    }

    /// Each result so far is one of the check at its position.
    pub open spec fn recorded_in_order(&self) -> bool {
        &&& self.spec_results().len() <= self.spec_checks().len()
        &&& forall|i: int|
            0 <= i < self.spec_results().len() ==> same_check(
                #[trigger] self.spec_results()[i].check,
                self.spec_checks()[i],
            )
    }

    /// The run is over: every check ran, or a check failed under
    /// `FailFast`.
    pub open spec fn spec_done(&self) -> bool {
        self.spec_results().len() >= self.spec_checks().len() || (self.spec_strategy() == FailStrategy::FailFast
            && self.spec_results().len() > 0 && !self.spec_results().last().passed)
    }

    /// Starts running the checks of a node (none when it has no `verify`).
    pub fn start(node: &Node, strategy: FailStrategy) -> (r: VerifyRun)
        ensures
            r.spec_checks().len() == match node.verify {
                Some(v) => v@.len(),
                None => 0,
            },
            forall|i: int| 0 <= i < r.spec_checks().len() ==> #[trigger] r.spec_checks()[i] == node.verify->0@[i],
            r.spec_results().len() == 0,
            r.recorded_in_order(),
            r.spec_strategy() == strategy,
            r.spec_node_id() == node.id@,
    {
        let mut checks: Vec<VerifyCheck> = Vec::new();
        if let Some(v) = &node.verify {
            let mut i: usize = 0;
            while i < v.len()
                invariant
                    i <= v@.len(),
                    checks@.len() == i,
                    forall|j: int| 0 <= j < i ==> #[trigger] checks@[j] == v@[j],
                decreases v@.len() - i,
            {
                checks.push(v[i].copy());
                i += 1;
            }
        }
        VerifyRun { node_id: node.id.clone(), checks, strategy, results: Vec::new() }
    }

    /// The check to run next, or `None` when the run is over.
    pub fn next_check(&self) -> (r: Option<&VerifyCheck>)
        ensures
            match r {
                Some(c) => !self.spec_done() && *c == self.spec_checks()[self.spec_results().len() as int],
                None => self.spec_done(),
            },
    {
        let n = self.results.len();
        if n >= self.checks.len() {
            return None;
        }
        if self.strategy == FailStrategy::FailFast && n > 0 && !self.results[n - 1].passed {
            return None;
        }
        Some(&self.checks[n])
    }

    /// Whether `result` is a result of the check that `next_check` gives.
    pub fn expects(&self, result: &CheckResult) -> (r: bool)
        ensures
            r == (!self.spec_done() && same_check(
                result.check,
                self.spec_checks()[self.spec_results().len() as int],
            )),
    {
        match self.next_check() {
            Some(c) => is_same_check(&result.check, c),
            None => false,
        }
    }

    /// Records the result of the check that `next_check` gave.
    pub fn record(&mut self, result: CheckResult)
        requires
            !old(self).spec_done(),
            same_check(result.check, old(self).spec_checks()[old(self).spec_results().len() as int]),
        ensures
            final(self).spec_results() == old(self).spec_results().push(result),
            old(self).recorded_in_order() ==> final(self).recorded_in_order(),
            final(self).spec_checks() == old(self).spec_checks(),
            final(self).spec_strategy() == old(self).spec_strategy(),
            final(self).spec_node_id() == old(self).spec_node_id(),
    {
        self.results.push(result);
    }

    /// The result of the node's verification: the results in order, and
    /// whether all of them passed.
    pub fn finish(self) -> (r: VerifyResult)
        ensures
            r.node_id@ == self.spec_node_id(),
            r.checks@ == self.spec_results(),
            self.recorded_in_order() ==> forall|i: int|
                0 <= i < r.checks@.len() ==> same_check(#[trigger] r.checks@[i].check, self.spec_checks()[i]),
            r.all_passed == forall|i: int| 0 <= i < r.checks@.len() ==> (#[trigger] r.checks@[i]).passed,
    {
        let mut all = true;
        let mut i: usize = 0;
        while i < self.results.len()
            invariant
                i <= self.results@.len(),
                all == forall|j: int| 0 <= j < i ==> (#[trigger] self.results@[j]).passed,
            decreases self.results@.len() - i,
        {
            all = all && self.results[i].passed;
            i += 1;
        }
        VerifyResult { node_id: self.node_id, checks: self.results, all_passed: all }
    }
}

// ---------------------------------------------------------------------------
// Log
// ---------------------------------------------------------------------------

/// Short label of a check for log lines.
pub open spec fn check_label_spec(c: VerifyCheck) -> Seq<char> {
    match c {
        VerifyCheck::Command { run, .. } => "command: "@ + run@,
        VerifyCheck::FileExists { file } => "file_exists: "@ + file@,
        VerifyCheck::FileContains { file, .. } => "file_contains: "@ + file@,
        VerifyCheck::FileNotContains { file, .. } => "file_not_contains: "@ + file@,
        VerifyCheck::NodeStatus { node, status } => "node_status: "@ + node@ + " == "@ + status@,
    }
}

/// Short label of a check for log lines.
pub fn check_label(c: &VerifyCheck) -> (r: String)
    ensures
        r@ == check_label_spec(*c),
{
    match c {
        VerifyCheck::Command { run, .. } => concat2("command: ", run.as_str()),
        VerifyCheck::FileExists { file } => concat2("file_exists: ", file.as_str()),
        VerifyCheck::FileContains { file, .. } => concat2("file_contains: ", file.as_str()),
        VerifyCheck::FileNotContains { file, .. } => concat2("file_not_contains: ", file.as_str()),
        VerifyCheck::NodeStatus { node, status } => {
            let mut r = owned("node_status: ");
            push_str(&mut r, node.as_str());
            push_str(&mut r, " == ");
            push_str(&mut r, status.as_str());
            r
        },
    }
}

/// The first line of a message (the message itself when it has none).
pub open spec fn first_line(m: Seq<char>) -> Seq<char> {
    if lines(m).len() > 0 {
        lines(m)[0]
    } else {
        m
    }
}

/// The log line of one check result.
pub open spec fn check_log_line(c: CheckResult) -> Seq<char> {
    if c.passed {
        "  [PASS] "@ + check_label_spec(c.check) + " ("@ + decimal(c.duration_ms as nat) + "ms)"@
    } else {
        "  [FAIL] "@ + check_label_spec(c.check) + " -- "@ + first_line(c.message@) + " ("@ + decimal(
            c.duration_ms as nat,
        ) + "ms)"@
    }
}

/// Number of passed results.
pub open spec fn passed_count(cs: Seq<CheckResult>) -> nat
    decreases cs.len(),
{
    if cs.len() == 0 {
        0
    } else {
        passed_count(cs.drop_last()) + if cs.last().passed {
            1nat
        } else {
            0nat
        }
    }
}

/// The verification log: a summary line, then one line per check.
pub open spec fn verify_log_spec(r: VerifyResult) -> Seq<char> {
    join(
        seq![
            "Verification: "@ + decimal(passed_count(r.checks@)) + "/"@ + decimal(r.checks@.len()) + " checks passed"@,
        ] + r.checks@.map_values(|c: CheckResult| check_log_line(c)),
        "\n"@,
    )
}

/// Formats a verification result as a log.
pub fn format_verify_log(result: &VerifyResult) -> (r: String)
    ensures
        r@ == verify_log_spec(*result),
{
    let n = result.checks.len();
    let mut passed: usize = 0;
    let mut i: usize = 0;
    while i < n
        invariant
            n == result.checks@.len(),
            i <= n,
            passed == passed_count(result.checks@.take(i as int)),
            passed <= i,
        decreases n - i,
    {
        assert(result.checks@.take(i + 1).drop_last() =~= result.checks@.take(i as int));
        if result.checks[i].passed {
            passed = passed + 1;
        }
        i += 1;
    }
    assert(result.checks@.take(n as int) =~= result.checks@);
    let mut lines_out: Vec<String> = Vec::new();
    let mut head = owned("Verification: ");
    push_str(&mut head, decimal_string(passed as u64).as_str());
    push_str(&mut head, "/");
    push_str(&mut head, decimal_string(n as u64).as_str());
    push_str(&mut head, " checks passed");
    let ghost hv = head@;
    proof {
        crate::text::lemma_views_push(lines_out@, head);
    }
    lines_out.push(head);
    let ghost first = string_views(lines_out@);
    assert(first =~= seq![hv]);
    let mut k: usize = 0;
    while k < n
        invariant
            n == result.checks@.len(),
            k <= n,
            first.len() == 1,
            string_views(lines_out@) == first + result.checks@.take(k as int).map_values(|c: CheckResult| check_log_line(c)),
        decreases n - k,
    {
        let c = &result.checks[k];
        let label = check_label(&c.check);
        let ms = decimal_string(c.duration_ms);
        let line = if c.passed {
            let mut l = owned("  [PASS] ");
            push_str(&mut l, label.as_str());
            push_str(&mut l, " (");
            push_str(&mut l, ms.as_str());
            push_str(&mut l, "ms)");
            l
        } else {
            let ls = split_lines(c.message.as_str());
            let fl = if ls.len() > 0 {
                ls[0].clone()
            } else {
                c.message.clone()
            };
            let mut l = owned("  [FAIL] ");
            push_str(&mut l, label.as_str());
            push_str(&mut l, " -- ");
            push_str(&mut l, fl.as_str());
            push_str(&mut l, " (");
            push_str(&mut l, ms.as_str());
            push_str(&mut l, "ms)");
            l
        };
        proof {
            crate::text::lemma_views_push(lines_out@, line);
            assert(result.checks@.take(k + 1) =~= result.checks@.take(k as int).push(result.checks@[k as int]));
        }
        lines_out.push(line);
        proof {
            assert(string_views(lines_out@) =~= first + result.checks@.take(k + 1).map_values(|c: CheckResult| check_log_line(c)));
        }
        k += 1;
    }
    assert(result.checks@.take(n as int) =~= result.checks@);
    join_strings(&lines_out, "\n")
}

} // verus!
