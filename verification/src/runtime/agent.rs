//! Agent requests and responses, and the decisions of the shell agent.
//!
//! The shell agent applies a node's code blocks: shell blocks run as
//! commands, other blocks edit their target file. Running commands and
//! touching files happen outside the library; it checks targets, computes
//! the new file contents and the messages, and builds the response.

use vstd::prelude::*;

use crate::keyed::str_eq;
use crate::pattern::{split_char, split_on};
use crate::runtime::checks::{kept_bytes, signed_decimal, signed_decimal_string, CommandOutcome};
use crate::runtime::duration::{decimal, decimal_string};
use crate::runtime::model::{CodeAction, CodeBlock};
use crate::text::{
    chars_of, concat2, find_from, find_sub, find_sub_exec, join, join_strings, lossy_string, occurs_at, owned,
    push_str, string_of_range, string_views, utf8_lossy,
};

verus! {

/// Bytes kept of each output stream of a shell command.
pub const MAX_OUTPUT_BYTES: usize = 8192;

/// Request sent to an agent to execute a node.
pub struct AgentRequest {
    /// The node executed.
    pub node_id: String,
    /// The prompt built for the node.
    pub context: String,
    /// Code blocks to apply or run.
    pub code_blocks: Vec<CodeBlock>,
    /// Working directory of file operations.
    pub working_dir: String,
    /// Time the agent may spend, in seconds.
    pub timeout_secs: u64,
}

/// Response of an agent.
pub struct AgentResponse {
    /// The agent considers the execution successful.
    pub success: bool,
    /// Output text.
    pub output: String,
    /// Time spent, in milliseconds.
    pub duration_ms: u64,
}

/// The agent that applies code blocks as file edits or shell commands.
pub struct ShellAgent;

impl ShellAgent {
    /// The agent's name, recorded as `executed_by`.
    pub fn name(&self) -> (r: &'static str)
        ensures
            r@ == "shell-agent"@,
    {
        "shell-agent"
    }
}

/// Languages whose blocks run as shell commands.
pub open spec fn is_shell_lang(l: Seq<char>) -> bool {
    l == "sh"@ || l == "bash"@ || l == "shell"@ || l == "cmd"@ || l == "powershell"@ || l == "zsh"@
}

/// A block runs as a command when its language is a shell language and it
/// has no target file.
pub open spec fn is_shell_command_spec(b: CodeBlock) -> bool {
    (b.lang matches Some(l) && is_shell_lang(l@)) && b.target is None
}

/// Whether a block runs as a shell command.
pub fn is_shell_command(b: &CodeBlock) -> (r: bool)
    ensures
        r == is_shell_command_spec(*b),
{
    let shell_lang = match &b.lang {
        Some(l) => {
            let l = l.as_str();
            str_eq(l, "sh") || str_eq(l, "bash") || str_eq(l, "shell") || str_eq(l, "cmd") || str_eq(
                l,
                "powershell",
            ) || str_eq(l, "zsh")
        },
        None => false,
    };
    shell_lang && b.target.is_none()
}

/// A path has a `..` component.
pub open spec fn has_dotdot_spec(path: Seq<char>) -> bool {
    split_char(path, '/').contains(".."@)
}

/// Whether any component of `path` is `..`.
pub fn has_dotdot(path: &str) -> (r: bool)
    ensures
        r == has_dotdot_spec(path@),
{
    let parts = split_on(path, '/');
    let mut i: usize = 0;
    while i < parts.len()
        invariant
            i <= parts@.len(),
            string_views(parts@) == split_char(path@, '/'),
            forall|j: int| 0 <= j < i ==> #[trigger] string_views(parts@)[j] != ".."@,
        decreases parts@.len() - i,
    {
        if str_eq(parts[i].as_str(), "..") {
            assert(string_views(parts@)[i as int] == ".."@);
            assert(string_views(parts@).contains(".."@));
            return true;
        }
        i += 1;
    }
    proof {
        if string_views(parts@).contains(".."@) {
            let j = string_views(parts@).index_of(".."@);
            assert(string_views(parts@)[j] == ".."@);
        }
    }
    false
}

/// Name of an action in messages.
pub open spec fn action_name_spec(a: CodeAction) -> Seq<char> {
    match a {
        CodeAction::Create => "create"@,
        CodeAction::Append => "append"@,
        CodeAction::Prepend => "prepend"@,
        CodeAction::Replace => "replace"@,
        CodeAction::InsertBefore => "insert_before"@,
        CodeAction::InsertAfter => "insert_after"@,
        CodeAction::Full => "full"@,
    }
}

/// Name of an action in messages.
pub fn action_name(a: CodeAction) -> (r: &'static str)
    ensures
        r@ == action_name_spec(a),
{
    match a {
        CodeAction::Create => "create",
        CodeAction::Append => "append",
        CodeAction::Prepend => "prepend",
        CodeAction::Replace => "replace",
        CodeAction::InsertBefore => "insert_before",
        CodeAction::InsertAfter => "insert_after",
        CodeAction::Full => "full",
    }
}

/// The target of a file block, or why it is refused: it must be present
/// and have no `..` component.
pub open spec fn file_target_spec(b: CodeBlock) -> Result<Seq<char>, Seq<char>> {
    match b.target {
        None => Err("Code block with action '"@ + action_name_spec(b.action) + "' requires a target path"@),
        Some(t) => if has_dotdot_spec(t@) {
            Err("Target path '"@ + t@ + "' contains '..' and is rejected for security reasons"@)
        } else {
            Ok(t@)
        },
    }
}

/// The target of a file block, or why it is refused.
pub fn file_target(b: &CodeBlock) -> (r: Result<String, String>)
    ensures
        match r {
            Ok(t) => file_target_spec(*b) == Ok::<Seq<char>, Seq<char>>(t@),
            Err(e) => file_target_spec(*b) == Err::<Seq<char>, Seq<char>>(e@),
        },
{
    match &b.target {
        None => {
            let mut m = owned("Code block with action '");
            push_str(&mut m, action_name(b.action));
            push_str(&mut m, "' requires a target path");
            Err(m)
        },
        Some(t) => {
            if has_dotdot(t.as_str()) {
                let mut m = owned("Target path '");
                push_str(&mut m, t.as_str());
                push_str(&mut m, "' contains '..' and is rejected for security reasons");
                Err(m)
            } else {
                Ok(t.clone())
            }
        },
    }
}

/// Number of non-overlapping occurrences of `pat` in `s` at or after `p`,
/// left to right (an empty `pat` occurs at every position).
pub open spec fn count_from(s: Seq<char>, pat: Seq<char>, p: int) -> nat
    decreases s.len() + 1 - p,
{
    match find_from(s, pat, p) {
        None => 0,
        Some(i) => if p <= i && i + pat.len() <= s.len() {
            1 + count_from(s, pat, i + if pat.len() == 0 {
                1
            } else {
                pat.len() as int
            })
        } else {
            0
        },
    }
}

/// `s` with the first occurrence of `pat` replaced by `by` (`s` itself
/// when there is none).
pub open spec fn replace_first(s: Seq<char>, pat: Seq<char>, by: Seq<char>) -> Seq<char> {
    match find_sub(s, pat) {
        None => s,
        Some(i) => s.take(i) + by + s.skip(i + pat.len()),
    }
}

proof fn lemma_find_in_range(s: Seq<char>, pat: Seq<char>, p: int)
    requires
        p >= 0,
    ensures
        match find_from(s, pat, p) {
            Some(i) => p <= i && i + pat.len() <= s.len(),
            None => true,
        },
{
    crate::text::lemma_find_from_bounds(s, pat, p);
}

fn count_matches(s: &[char], pat: &[char]) -> (r: usize)
    requires
        s@.len() < usize::MAX,
    ensures
        r == count_from(s@, pat@, 0),
{
    let mut n: usize = 0;
    let mut p: usize = 0;
    loop
        invariant
            s@.len() < usize::MAX,
            p <= s@.len() + 1,
            n + count_from(s@, pat@, p as int) == count_from(s@, pat@, 0),
            n <= p,
        decreases s@.len() + 1 - p,
    {
        proof {
            lemma_find_in_range(s@, pat@, p as int);
        }
        match find_sub_exec(s, pat, p) {
            None => {
                return n;
            },
            Some(i) => {
                let step: usize = if pat.len() == 0 {
                    1
                } else {
                    pat.len()
                };
                n = n + 1;
                p = i + step;
            },
        }
    }
}

fn replace_first_exec(s: &str, pat: &str, by: &str) -> (r: String)
    ensures
        r@ == replace_first(s@, pat@, by@),
{
    let cs = chars_of(s);
    let pc = chars_of(pat);
    match find_sub_exec(cs.as_slice(), pc.as_slice(), 0) {
        None => owned(s),
        Some(i) => {
            proof {
                crate::text::lemma_find_from_bounds(cs@, pc@, 0);
                assert(crate::text::occurs_at(cs@, pc@, i as int));
            }
            let total = cs.len();
            let plen = pc.len();
            assert(i + plen <= total);
            let j = i + plen;
            let mut r = string_of_range(cs.as_slice(), 0, i);
            push_str(&mut r, by);
            push_str(&mut r, string_of_range(cs.as_slice(), j, total).as_str());
            assert(cs@.subrange(0, i as int) =~= s@.take(i as int));
            assert(cs@.subrange(i + pc@.len(), cs@.len() as int) =~= s@.skip(i + pat@.len()));
            r
        },
    }
}

/// The new text of a file that a `prepend`, `replace`, `insert_before` or
/// `insert_after` block edits, given its current text, or why the edit
/// fails; `path` is the file's full path as messages show it.
pub open spec fn edited_spec(b: CodeBlock, path: Seq<char>, existing: Seq<char>) -> Result<Seq<char>, Seq<char>> {
    match b.action {
        CodeAction::Replace => match b.old {
            None => Err("Replace action requires 'old' field"@),
            Some(old) => {
                let count = count_from(existing, old@, 0);
                if count == 0 {
                    Err("Replace failed: 'old' text not found in "@ + path)
                } else if count > 1 {
                    Err("Replace failed: 'old' text found "@ + decimal(count) + " times in "@ + path
                        + " (must be exactly 1)"@)
                } else {
                    Ok(replace_first(existing, old@, b.body@))
                }
            },
        },
        CodeAction::InsertBefore => match b.anchor {
            None => Err("InsertBefore action requires 'anchor' field"@),
            Some(a) => if find_sub(existing, a@) is None {
                Err("InsertBefore failed: anchor not found in "@ + path)
            } else {
                Ok(replace_first(existing, a@, b.body@ + a@))
            },
        },
        CodeAction::InsertAfter => match b.anchor {
            None => Err("InsertAfter action requires 'anchor' field"@),
            Some(a) => if find_sub(existing, a@) is None {
                Err("InsertAfter failed: anchor not found in "@ + path)
            } else {
                Ok(replace_first(existing, a@, a@ + b.body@))
            },
        },
        _ => Ok(b.body@ + existing),
    }
}

/// `insert_before` puts the body immediately before the first occurrence
/// of the anchor: the text before it is unchanged, the anchor and all after
/// it follow the body.
pub proof fn lemma_insert_before_first_anchor(
    b: CodeBlock,
    path: Seq<char>,
    existing: Seq<char>,
    anchor: Seq<char>,
    i: int,
)
    requires
        b.action == CodeAction::InsertBefore,
        b.anchor matches Some(a) && a@ == anchor,
        occurs_at(existing, anchor, i),
        forall|k: int| 0 <= k < i ==> !occurs_at(existing, anchor, k),
    ensures
        edited_spec(b, path, existing) == Ok::<Seq<char>, Seq<char>>(existing.take(i) + b.body@ + existing.skip(i)),
{
    crate::text::lemma_find_first_occurrence(existing, anchor, i, 0);
    assert(existing.subrange(i, i + anchor.len()) == anchor);
    assert(existing.take(i) + (b.body@ + anchor) + existing.skip(i + anchor.len()) =~= existing.take(i) + b.body@
        + existing.skip(i));
}

/// `insert_after` puts the body immediately after the first occurrence of
/// the anchor: the text up to the end of the anchor is unchanged, and all
/// after it follows the body.
pub proof fn lemma_insert_after_first_anchor(
    b: CodeBlock,
    path: Seq<char>,
    existing: Seq<char>,
    anchor: Seq<char>,
    i: int,
)
    requires
        b.action == CodeAction::InsertAfter,
        b.anchor matches Some(a) && a@ == anchor,
        occurs_at(existing, anchor, i),
        forall|k: int| 0 <= k < i ==> !occurs_at(existing, anchor, k),
    ensures
        edited_spec(b, path, existing) == Ok::<Seq<char>, Seq<char>>(
            existing.take(i + anchor.len()) + b.body@ + existing.skip(i + anchor.len()),
        ),
{
    crate::text::lemma_find_first_occurrence(existing, anchor, i, 0);
    assert(existing.subrange(i, i + anchor.len()) == anchor);
    assert(existing.take(i) + (anchor + b.body@) + existing.skip(i + anchor.len()) =~= existing.take(
        i + anchor.len(),
    ) + b.body@ + existing.skip(i + anchor.len()));
}

/// An insertion whose anchor occurs nowhere in the file fails, naming the
/// file, and leaves nothing to write.
pub proof fn lemma_insert_without_anchor_fails(b: CodeBlock, path: Seq<char>, existing: Seq<char>, anchor: Seq<char>)
    requires
        b.action == CodeAction::InsertBefore || b.action == CodeAction::InsertAfter,
        b.anchor matches Some(a) && a@ == anchor,
        forall|k: int| 0 <= k ==> !occurs_at(existing, anchor, k),
    ensures
        b.action == CodeAction::InsertBefore ==> edited_spec(b, path, existing) == Err::<Seq<char>, Seq<char>>(
            "InsertBefore failed: anchor not found in "@ + path,
        ),
        b.action == CodeAction::InsertAfter ==> edited_spec(b, path, existing) == Err::<Seq<char>, Seq<char>>(
            "InsertAfter failed: anchor not found in "@ + path,
        ),
{
    crate::text::lemma_find_no_occurrence(existing, anchor, 0);
}

/// `replace` with text `old` that occurs exactly once, at `i`, puts the
/// body in its place and keeps everything around it.
pub proof fn lemma_replace_single_occurrence(
    b: CodeBlock,
    path: Seq<char>,
    existing: Seq<char>,
    old: Seq<char>,
    i: int,
)
    requires
        b.action == CodeAction::Replace,
        b.old matches Some(o) && o@ == old,
        occurs_at(existing, old, i),
        forall|k: int| 0 <= k && k != i ==> !occurs_at(existing, old, k),
    ensures
        edited_spec(b, path, existing) == Ok::<Seq<char>, Seq<char>>(
            existing.take(i) + b.body@ + existing.skip(i + old.len()),
        ),
{
    crate::text::lemma_find_first_occurrence(existing, old, i, 0);
    let next = i + if old.len() == 0 {
        1
    } else {
        old.len() as int
    };
    crate::text::lemma_find_no_occurrence(existing, old, next);
    assert(count_from(existing, old, next) == 0);
    assert(count_from(existing, old, 0) == 1);
}

/// `prepend` puts the body before the whole file.
pub proof fn lemma_prepend_puts_body_first(b: CodeBlock, path: Seq<char>, existing: Seq<char>)
    requires
        b.action == CodeAction::Prepend,
    ensures
        edited_spec(b, path, existing) == Ok::<Seq<char>, Seq<char>>(b.body@ + existing),
{
}

/// A `replace` block without `old`, or an insertion without `anchor`: the
/// edit fails whatever the file holds, before the file is read.
pub open spec fn lacks_edit_field(b: CodeBlock) -> bool {
    match b.action {
        CodeAction::Replace => b.old is None,
        CodeAction::InsertBefore | CodeAction::InsertAfter => b.anchor is None,
        _ => false,
    }
}

/// The error of a block that lacks the field its edit needs, if it does;
/// it is the error that [`edited_content`] gives for any file text.
pub fn missing_field_error(b: &CodeBlock) -> (r: Option<String>)
    ensures
        r is Some <==> lacks_edit_field(*b),
        forall|path: Seq<char>, existing: Seq<char>|
            r matches Some(m) ==> #[trigger] edited_spec(*b, path, existing) == Err::<Seq<char>, Seq<char>>(m@),
{
    match b.action {
        CodeAction::Replace => match &b.old {
            None => Some(owned("Replace action requires 'old' field")),
            Some(_) => None,
        },
        CodeAction::InsertBefore => match &b.anchor {
            None => Some(owned("InsertBefore action requires 'anchor' field")),
            Some(_) => None,
        },
        CodeAction::InsertAfter => match &b.anchor {
            None => Some(owned("InsertAfter action requires 'anchor' field")),
            Some(_) => None,
        },
        _ => None,
    }
}

/// The new text of a file that a block edits, or why the edit fails.
pub fn edited_content(b: &CodeBlock, path: &str, existing: &str) -> (r: Result<String, String>)
    requires
        existing@.len() < usize::MAX,
    ensures
        match r {
            Ok(t) => edited_spec(*b, path@, existing@) == Ok::<Seq<char>, Seq<char>>(t@),
            Err(e) => edited_spec(*b, path@, existing@) == Err::<Seq<char>, Seq<char>>(e@),
        },
{
    match b.action {
        CodeAction::Replace => match &b.old {
            None => Err(owned("Replace action requires 'old' field")),
            Some(old) => {
                let ec = chars_of(existing);
                let oc = chars_of(old.as_str());
                let count = count_matches(ec.as_slice(), oc.as_slice());
                if count == 0 {
                    Err(concat2("Replace failed: 'old' text not found in ", path))
                } else if count > 1 {
                    let mut m = owned("Replace failed: 'old' text found ");
                    push_str(&mut m, decimal_string(count as u64).as_str());
                    push_str(&mut m, " times in ");
                    push_str(&mut m, path);
                    push_str(&mut m, " (must be exactly 1)");
                    Err(m)
                } else {
                    Ok(replace_first_exec(existing, old.as_str(), b.body.as_str()))
                }
            },
        },
        CodeAction::InsertBefore => match &b.anchor {
            None => Err(owned("InsertBefore action requires 'anchor' field")),
            Some(a) => {
                let ec = chars_of(existing);
                let ac = chars_of(a.as_str());
                if find_sub_exec(ec.as_slice(), ac.as_slice(), 0).is_none() {
                    Err(concat2("InsertBefore failed: anchor not found in ", path))
                } else {
                    let by = concat2(b.body.as_str(), a.as_str());
                    Ok(replace_first_exec(existing, a.as_str(), by.as_str()))
                }
            },
        },
        CodeAction::InsertAfter => match &b.anchor {
            None => Err(owned("InsertAfter action requires 'anchor' field")),
            Some(a) => {
                let ec = chars_of(existing);
                let ac = chars_of(a.as_str());
                if find_sub_exec(ec.as_slice(), ac.as_slice(), 0).is_none() {
                    Err(concat2("InsertAfter failed: anchor not found in ", path))
                } else {
                    let by = concat2(a.as_str(), b.body.as_str());
                    Ok(replace_first_exec(existing, a.as_str(), by.as_str()))
                }
            },
        },
        _ => Ok(concat2(b.body.as_str(), existing)),
    }
}

/// The message of a file action done on `target`.
pub open spec fn action_done_spec(a: CodeAction, target: Seq<char>) -> Seq<char> {
    match a {
        CodeAction::Create => "Created "@ + target,
        CodeAction::Full => "Wrote (full) "@ + target,
        CodeAction::Append => "Appended to "@ + target,
        CodeAction::Prepend => "Prepended to "@ + target,
        CodeAction::Replace => "Replaced in "@ + target,
        CodeAction::InsertBefore => "Inserted before anchor in "@ + target,
        CodeAction::InsertAfter => "Inserted after anchor in "@ + target,
    }
}

/// The message of a file action done on `target`.
pub fn action_done_message(a: CodeAction, target: &str) -> (r: String)
    ensures
        r@ == action_done_spec(a, target@),
{
    let prefix = match a {
        CodeAction::Create => "Created ",
        CodeAction::Full => "Wrote (full) ",
        CodeAction::Append => "Appended to ",
        CodeAction::Prepend => "Prepended to ",
        CodeAction::Replace => "Replaced in ",
        CodeAction::InsertBefore => "Inserted before anchor in ",
        CodeAction::InsertAfter => "Inserted after anchor in ",
    };
    concat2(prefix, target)
}

/// The first `MAX_OUTPUT_BYTES` bytes of a shell command's stream.
pub open spec fn shell_kept(b: Seq<u8>) -> Seq<u8> {
    if b.len() > MAX_OUTPUT_BYTES {
        b.take(MAX_OUTPUT_BYTES as int)
    } else {
        b
    }
}

/// What a shell block gives, from how running its command went: its output
/// (stdout, then stderr after a marker when there is any) when it exited
/// with code 0, else the error.
pub open spec fn shell_result_spec(body: Seq<char>, outcome: CommandOutcome) -> Result<Seq<char>, Seq<char>> {
    match outcome {
        CommandOutcome::SpawnFailed(e) => Err("Failed to spawn shell: "@ + e@),
        CommandOutcome::TimedOut(t) => Err("Command timed out after "@ + t@ + ": "@ + body),
        CommandOutcome::WaitFailed(e) => Err("Error waiting for command: "@ + e@),
        CommandOutcome::OutputFailed(e) => Err(e@),
        CommandOutcome::Exited { code, stdout, stderr } => {
            let c: int = match code {
                Some(v) => v as int,
                None => -1,
            };
            let so = utf8_lossy(shell_kept(stdout@));
            let se = utf8_lossy(shell_kept(stderr@));
            let combined = if se.len() == 0 {
                so
            } else {
                so + "\n[stderr]\n"@ + se
            };
            if c != 0 {
                Err("Command exited with code "@ + signed_decimal(c) + ": "@ + body + "\n"@ + combined)
            } else {
                Ok(combined)
            }
        },
    }
}

fn shell_prefix(b: &Vec<u8>) -> (r: Vec<u8>)
    ensures
        r@ == shell_kept(b@),
{
    let n = if b.len() > MAX_OUTPUT_BYTES {
        MAX_OUTPUT_BYTES
    } else {
        b.len()
    };
    let mut r: Vec<u8> = Vec::new();
    let mut i: usize = 0;
    while i < n
        invariant
            i <= n <= b@.len(),
            n == (if b@.len() > MAX_OUTPUT_BYTES {
                MAX_OUTPUT_BYTES as int
            } else {
                b@.len() as int
            }),
            r@ == b@.take(i as int),
        decreases n - i,
    {
        r.push(b[i]);
        assert(b@.take(i + 1) =~= b@.take(i as int).push(b@[i as int]));
        i += 1;
    }
    if b.len() <= MAX_OUTPUT_BYTES {
        assert(b@.take(n as int) =~= b@);
    }
    r
}

/// What a shell block gives, from how running its command went.
pub fn shell_result(body: &str, outcome: &CommandOutcome) -> (r: Result<String, String>)
    ensures
        match r {
            Ok(t) => shell_result_spec(body@, *outcome) == Ok::<Seq<char>, Seq<char>>(t@),
            Err(e) => shell_result_spec(body@, *outcome) == Err::<Seq<char>, Seq<char>>(e@),
        },
{
    match outcome {
        CommandOutcome::SpawnFailed(e) => Err(concat2("Failed to spawn shell: ", e.as_str())),
        CommandOutcome::TimedOut(t) => {
            let mut m = owned("Command timed out after ");
            push_str(&mut m, t.as_str());
            push_str(&mut m, ": ");
            push_str(&mut m, body);
            Err(m)
        },
        CommandOutcome::WaitFailed(e) => Err(concat2("Error waiting for command: ", e.as_str())),
        CommandOutcome::OutputFailed(e) => Err(e.clone()),
        CommandOutcome::Exited { code, stdout, stderr } => {
            let c: i32 = match code {
                Some(v) => *v,
                None => -1,
            };
            let so = lossy_string(shell_prefix(stdout).as_slice());
            let se = lossy_string(shell_prefix(stderr).as_slice());
            let combined = if se.as_str().is_empty() {
                so
            } else {
                let mut x = so;
                push_str(&mut x, "\n[stderr]\n");
                push_str(&mut x, se.as_str());
                x
            };
            if c != 0 {
                let mut m = owned("Command exited with code ");
                push_str(&mut m, signed_decimal_string(c).as_str());
                push_str(&mut m, ": ");
                push_str(&mut m, body);
                push_str(&mut m, "\n");
                push_str(&mut m, combined.as_str());
                Err(m)
            } else {
                Ok(combined)
            }
        },
    }
}

/// Index of the first failed block result, or their number.
pub open spec fn first_error(results: Seq<Result<Seq<char>, Seq<char>>>) -> int
    decreases results.len(),
{
    if results.len() == 0 {
        0
    } else if first_error(results.drop_last()) < results.len() - 1 {
        first_error(results.drop_last())
    } else if results.last() is Err {
        results.len() - 1
    } else {
        results.len() as int
    }
}

/// The output lines of the shell agent for the block results: the outputs
/// of the blocks before the first failure, then that failure as
/// `Error in block <n>: <error>`.
pub open spec fn agent_lines(results: Seq<Result<Seq<char>, Seq<char>>>) -> Seq<Seq<char>> {
    let k = first_error(results);
    Seq::new(k as nat, |i: int| results[i]->Ok_0) + if k < results.len() {
        seq!["Error in block "@ + decimal((k + 1) as nat) + ": "@ + results[k]->Err_0]
    } else {
        Seq::empty()
    }
}

/// Views of block results.
pub open spec fn result_views(v: Seq<Result<String, String>>) -> Seq<Result<Seq<char>, Seq<char>>> {
    v.map_values(
        |r: Result<String, String>|
            match r {
                Ok(s) => Ok(s@),
                Err(e) => Err(e@),
            },
    )
}

/// The shell agent's response for the results of its blocks, in order: it
/// succeeds when no block failed; the output joins the lines with `\n`.
pub fn shell_agent_response(results: &Vec<Result<String, String>>, duration_ms: u64) -> (r: AgentResponse)
    ensures
        r.success == (first_error(result_views(results@)) == results@.len()),
        r.output@ == join(agent_lines(result_views(results@)), "\n"@),
        r.duration_ms == duration_ms,
{
    let ghost rv = result_views(results@);
    let mut outputs: Vec<String> = Vec::new();
    let mut i: usize = 0;
    while i < results.len()
        invariant
            i <= results@.len(),
            rv == result_views(results@),
            first_error(rv.take(i as int)) == i,
            string_views(outputs@) == Seq::new(i as nat, |j: int| rv[j]->Ok_0),
        decreases results@.len() - i,
    {
        assert(rv.take(i + 1).drop_last() =~= rv.take(i as int));
        match &results[i] {
            Ok(o) => {
                let c = o.clone();
                proof {
                    crate::text::lemma_views_push(outputs@, c);
                }
                outputs.push(c);
                proof {
                    assert(string_views(outputs@) =~= Seq::new((i + 1) as nat, |j: int| rv[j]->Ok_0));
                }
            },
            Err(e) => {
                let mut m = owned("Error in block ");
                push_str(&mut m, decimal_string((i as u64) + 1).as_str());
                push_str(&mut m, ": ");
                push_str(&mut m, e.as_str());
                let ghost before = string_views(outputs@);
                proof {
                    crate::text::lemma_views_push(outputs@, m);
                }
                outputs.push(m);
                proof {
                    lemma_first_error_prefix(rv, i as int);
                    assert(string_views(outputs@) =~= agent_lines(rv));
                }
                return AgentResponse { success: false, output: join_strings(&outputs, "\n"), duration_ms };
            },
        }
        i += 1;
    }
    proof {
        assert(rv.take(i as int) =~= rv);
        assert(string_views(outputs@) =~= agent_lines(rv));
    }
    AgentResponse { success: true, output: join_strings(&outputs, "\n"), duration_ms }
}

proof fn lemma_first_error_prefix(rv: Seq<Result<Seq<char>, Seq<char>>>, i: int)
    requires
        0 <= i < rv.len(),
        first_error(rv.take(i)) == i,
        rv[i] is Err,
    ensures
        first_error(rv) == i,
    decreases rv.len(),
{
    if i < rv.len() - 1 {
        assert(rv.drop_last().take(i) =~= rv.take(i));
        lemma_first_error_prefix(rv.drop_last(), i);
    } else {
        assert(rv.drop_last() =~= rv.take(i));
    }
}

// ---------------------------------------------------------------------------
// Running the blocks of a request
// ---------------------------------------------------------------------------

/// The block the shell agent runs next, given the results of the blocks run
/// so far: the following one, unless one of them failed or all have run.
pub open spec fn next_block_spec(results: Seq<Result<Seq<char>, Seq<char>>>, n_blocks: nat) -> Option<nat> {
    if results.len() < n_blocks && first_error(results) == results.len() {
        Some(results.len())
    } else {
        None
    }
}

/// The block to run next (its index), or `None` when the agent is done:
/// every block ran, or the last one run failed.
pub fn next_block(results: &Vec<Result<String, String>>, n_blocks: usize) -> (r: Option<usize>)
    ensures
        match next_block_spec(result_views(results@), n_blocks as nat) {
            Some(i) => r == Some(i as usize),
            None => r is None,
        },
{
    let ghost rv = result_views(results@);
    let mut i: usize = 0;
    while i < results.len()
        invariant
            i <= results@.len(),
            rv == result_views(results@),
            first_error(rv.take(i as int)) == i,
        decreases results@.len() - i,
    {
        assert(rv.take(i + 1).drop_last() =~= rv.take(i as int));
        if results[i].is_err() {
            proof {
                lemma_first_error_prefix(rv, i as int);
            }
            return None;
        }
        i += 1;
    }
    assert(rv.take(i as int) =~= rv);
    if results.len() < n_blocks {
        Some(results.len())
    } else {
        None
    }
}

/// The shell agent runs no block after a failed one: whenever it is told to
/// run another block, every block run so far succeeded.
pub proof fn lemma_no_block_after_failure(results: Seq<Result<Seq<char>, Seq<char>>>, n_blocks: nat)
    requires
        next_block_spec(results, n_blocks) is Some,
    ensures
        forall|j: int| 0 <= j < results.len() ==> #[trigger] results[j] is Ok,
{
    lemma_first_error_all_ok(results);
}

proof fn lemma_first_error_all_ok(rs: Seq<Result<Seq<char>, Seq<char>>>)
    requires
        first_error(rs) == rs.len(),
    ensures
        forall|j: int| 0 <= j < rs.len() ==> #[trigger] rs[j] is Ok,
    decreases rs.len(),
{
    if rs.len() > 0 {
        let d = rs.drop_last();
        if first_error(d) < d.len() {
            assert(false);
        }
        lemma_first_error_all_ok(d);
        assert forall|j: int| 0 <= j < rs.len() implies #[trigger] rs[j] is Ok by {
            if j < d.len() {
                assert(d[j] == rs[j]);
            }
        }
    }
}

/// `first_error` is the position of the first failed block: every block
/// before it succeeded, and it failed (or it is the number of blocks when
/// none failed).
pub proof fn lemma_first_error_is_first_failure(rs: Seq<Result<Seq<char>, Seq<char>>>)
    ensures
        0 <= first_error(rs) <= rs.len(),
        forall|j: int| 0 <= j < first_error(rs) ==> #[trigger] rs[j] is Ok,
        first_error(rs) < rs.len() ==> rs[first_error(rs)] is Err,
    decreases rs.len(),
{
    if rs.len() > 0 {
        let d = rs.drop_last();
        lemma_first_error_is_first_failure(d);
        assert forall|j: int| 0 <= j < first_error(rs) implies #[trigger] rs[j] is Ok by {
            if j < d.len() {
                assert(d[j] == rs[j]);
            }
        }
        if first_error(d) < d.len() {
            assert(d[first_error(d)] == rs[first_error(d)]);
        }
    }
}

/// The shell agent succeeds exactly when every block it ran succeeded; when
/// one failed, its output ends with `Error in block <n>: <error>` for the
/// first failure, after the outputs of the blocks before it.
pub proof fn lemma_agent_response_reports_first_failure(rs: Seq<Result<Seq<char>, Seq<char>>>)
    ensures
        (first_error(rs) == rs.len()) <==> (forall|j: int| 0 <= j < rs.len() ==> #[trigger] rs[j] is Ok),
        forall|k: int|
            0 <= k < rs.len() && rs[k] is Err && (forall|j: int| 0 <= j < k ==> #[trigger] rs[j] is Ok) ==> {
                &&& agent_lines(rs).len() == k + 1
                &&& forall|j: int| 0 <= j < k ==> #[trigger] agent_lines(rs)[j] == rs[j]->Ok_0
                &&& agent_lines(rs)[k] == "Error in block "@ + decimal((k + 1) as nat) + ": "@ + rs[k]->Err_0
            },
        (forall|j: int| 0 <= j < rs.len() ==> #[trigger] rs[j] is Ok) ==> agent_lines(rs) == Seq::new(
            rs.len(),
            |i: int| rs[i]->Ok_0,
        ),
{
    lemma_first_error_is_first_failure(rs);
    assert forall|k: int|
        0 <= k < rs.len() && rs[k] is Err && (forall|j: int| 0 <= j < k ==> #[trigger] rs[j] is Ok) implies {
        &&& agent_lines(rs).len() == k + 1
        &&& forall|j: int| 0 <= j < k ==> #[trigger] agent_lines(rs)[j] == rs[j]->Ok_0
        &&& agent_lines(rs)[k] == "Error in block "@ + decimal((k + 1) as nat) + ": "@ + rs[k]->Err_0
    } by {
        let f = first_error(rs);
        if f < k {
            assert(rs[f] is Ok);
        }
        if f > k {
            assert(rs[k] is Ok);
        }
        assert(f == k);
    }
    if forall|j: int| 0 <= j < rs.len() ==> #[trigger] rs[j] is Ok {
        if first_error(rs) < rs.len() {
            assert(rs[first_error(rs)] is Ok);
        }
        assert(agent_lines(rs) =~= Seq::new(rs.len(), |i: int| rs[i]->Ok_0));
    }
}

/// A shell block succeeds exactly when its command exited with code 0.
pub proof fn lemma_shell_result_ok_iff_exit_zero(body: Seq<char>, outcome: CommandOutcome)
    ensures
        shell_result_spec(body, outcome) is Ok <==> (outcome matches CommandOutcome::Exited { code: Some(c), .. }
            && c == 0),
{
}

/// At most `MAX_OUTPUT_BYTES` of a stream are kept, from its start.
pub proof fn lemma_shell_kept_is_bounded_prefix(b: Seq<u8>)
    ensures
        shell_kept(b).len() == if b.len() > MAX_OUTPUT_BYTES {
            MAX_OUTPUT_BYTES as nat
        } else {
            b.len()
        },
        shell_kept(b) =~= b.take(shell_kept(b).len() as int),
{
}

/// The error of a `create` block whose target (shown as `shown`) already
/// exists; no other block fails for an existing target.
pub fn create_conflict(a: CodeAction, exists: bool, shown: &str) -> (r: Option<String>)
    ensures
        r is Some <==> (a == CodeAction::Create && exists),
        r matches Some(m) ==> m@ == "Target file already exists: "@ + shown@,
{
    if a == CodeAction::Create && exists {
        Some(concat2("Target file already exists: ", shown))
    } else {
        None
    }
}

/// The components of a path: the pieces between `/`, empty ones dropped.
pub open spec fn path_components(p: Seq<char>) -> Seq<Seq<char>> {
    split_char(p, '/').filter(|c: Seq<char>| c.len() > 0)
}

/// The path starts at the root.
pub open spec fn path_rooted(p: Seq<char>) -> bool {
    p.len() > 0 && p[0] == '/'
}

/// `target` lies within `base`: both rooted or both not, and the components
/// of `base` start those of `target`. For paths as `canonicalize` returns
/// them (absolute, no `.` or `..` parts) this is `Path::starts_with`.
pub open spec fn path_within(target: Seq<char>, base: Seq<char>) -> bool {
    &&& path_rooted(target) == path_rooted(base)
    &&& path_components(base).len() <= path_components(target).len()
    &&& path_components(target).take(path_components(base).len() as int) == path_components(base)
}

fn components_of(p: &str) -> (r: Vec<String>)
    ensures
        string_views(r@) == path_components(p@),
{
    let pieces = split_on(p, '/');
    let ghost pv = string_views(pieces@);
    let ghost keep = |c: Seq<char>| c.len() > 0;
    let mut out: Vec<String> = Vec::new();
    let mut i: usize = 0;
    while i < pieces.len()
        invariant
            i <= pieces@.len(),
            pv == string_views(pieces@),
            pv == split_char(p@, '/'),
            keep == (|c: Seq<char>| c.len() > 0),
            string_views(out@) == pv.take(i as int).filter(keep),
        decreases pieces@.len() - i,
    {
        proof {
            reveal_with_fuel(Seq::<_>::filter, 1);
            assert(pv.take(i + 1).drop_last() =~= pv.take(i as int));
        }
        let n = chars_of(pieces[i].as_str()).len();
        assert(pv[i as int] == pieces@[i as int]@);
        if n > 0 {
            let c = pieces[i].clone();
            proof {
                crate::text::lemma_views_push(out@, c);
            }
            out.push(c);
        }
        i += 1;
    }
    assert(pv.take(i as int) =~= pv);
    out
}

fn is_rooted(p: &str) -> (r: bool)
    ensures
        r == path_rooted(p@),
{
    let cs = chars_of(p);
    cs.len() > 0 && cs[0] == '/'
}

/// Whether `target` lies within `base`.
pub fn within_dir(target: &str, base: &str) -> (r: bool)
    ensures
        r == path_within(target@, base@),
{
    if is_rooted(target) != is_rooted(base) {
        return false;
    }
    let tc = components_of(target);
    let bc = components_of(base);
    let ghost tv = string_views(tc@);
    let ghost bv = string_views(bc@);
    if bc.len() > tc.len() {
        return false;
    }
    let mut i: usize = 0;
    while i < bc.len()
        invariant
            i <= bc@.len() <= tc@.len(),
            tv == string_views(tc@),
            bv == string_views(bc@),
            tv == path_components(target@),
            bv == path_components(base@),
            path_rooted(target@) == path_rooted(base@),
            forall|j: int| 0 <= j < i ==> tv[j] == bv[j],
        decreases bc@.len() - i,
    {
        if !str_eq(tc[i].as_str(), bc[i].as_str()) {
            proof {
                assert(tv[i as int] == tc@[i as int]@);
                assert(bv[i as int] == bc@[i as int]@);
                assert(tv.take(bv.len() as int)[i as int] == tv[i as int]);
                assert(tv.take(bv.len() as int) != bv);
            }
            return false;
        }
        i += 1;
    }
    assert(tv.take(bv.len() as int) =~= bv);
    true
}

/// The error of a target whose resolved path (`canonical_target`) leaves
/// the resolved working directory (`canonical_working`); `target_rel` and
/// `working_shown` are the paths as the message shows them.
pub fn containment_error(
    target_rel: &str,
    working_shown: &str,
    canonical_target: &str,
    canonical_working: &str,
) -> (r: Option<String>)
    ensures
        r is Some <==> !path_within(canonical_target@, canonical_working@),
        r matches Some(m) ==> m@ == "Target path '"@ + target_rel@ + "' resolves outside working directory '"@
            + working_shown@ + "'"@,
{
    if within_dir(canonical_target, canonical_working) {
        None
    } else {
        let mut m = owned("Target path '");
        push_str(&mut m, target_rel);
        push_str(&mut m, "' resolves outside working directory '");
        push_str(&mut m, working_shown);
        push_str(&mut m, "'");
        Some(m)
    }
}

} // verus!
