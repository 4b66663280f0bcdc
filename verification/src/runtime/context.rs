//! Context building for agent prompts.
//!
//! A prompt is made of sections, by priority (highest first): the system
//! hint, the target node in full, the `load_nodes` at operational level, the
//! transitive dependencies in summary, the `load_files`, and the
//! `load_memory` topics. Rendering nodes and reading files happen outside
//! the library; it plans the sections, fills them with what was rendered or
//! read, truncates to the token budget and assembles the prompt.

use vstd::prelude::*;
use vstd::string::StringSliceAdditionalSpecFns;

use crate::keyed::{lex_lt, str_eq, KeyedMap};
use crate::runtime::graph::{DepGraph, Direction};
use crate::runtime::memory::{pair_views, MemoryRuntime};
use crate::runtime::model::{AgentContext, AgmFile, FileRange, LoadFile, LoadMode, Node};
use crate::text::{
    chars_of, concat2, find_sub, find_sub_exec, join, join_strings, lines, occurs_at, owned, push_str,
    rfind_sub, rfind_sub_exec, rfind_upto, split_lines, starts_with, starts_with_exec, string_of_range,
    string_views, trim, trim_bounds, trim_start, trim_start_index,
};

verus! {

/// Where a context section comes from.
pub enum ContextSource {
    /// A node of the file, loaded at `mode`.
    Node { id: String, mode: LoadMode },
    /// A file of the working directory.
    File { path: String },
    /// A memory topic.
    Memory { topic: String },
    /// The node's system hint.
    SystemHint,
}

/// A named section of a context.
pub struct ContextSection {
    /// Section name, such as `node:<id>` or `file:<path>`.
    pub name: String,
    /// Section text.
    pub content: String,
    /// Origin of the section.
    pub source: ContextSource,
}

/// A context ready to send to an agent.
pub struct BuiltContext {
    /// The assembled prompt.
    pub prompt: String,
    /// Estimated token count of the prompt (bytes / 4).
    pub token_estimate: usize,
    /// The sections in the prompt, in order.
    pub sections: Vec<ContextSection>,
}

// ---------------------------------------------------------------------------
// Markdown header
// ---------------------------------------------------------------------------

/// `ls` without its leading blank lines.
pub open spec fn skip_blank(ls: Seq<Seq<char>>) -> Seq<Seq<char>>
    decreases ls.len(),
{
    if ls.len() > 0 && trim(ls[0]).len() == 0 {
        skip_blank(ls.drop_first())
    } else {
        ls
    }
}

/// `s` without a first line that starts with `# `, the blank lines after it
/// and the white space that then leads; `s` itself when its first line is no
/// such header.
pub open spec fn strip_header_spec(s: Seq<char>) -> Seq<char> {
    let ls = lines(s);
    if ls.len() > 0 && starts_with(ls[0], "# "@) {
        trim_start(join(skip_blank(ls.drop_first()), "\n"@))
    } else {
        s
    }
}

/// Removes the top-level markdown header line (`# Package vX.Y`) so that
/// sections can be composed without repeated headers.
pub fn strip_markdown_header(s: String) -> (r: String)
    ensures
        r@ == strip_header_spec(s@),
{
    let ls = split_lines(s.as_str());
    if ls.len() == 0 {
        return s;
    }
    let first = chars_of(ls[0].as_str());
    let hash = chars_of("# ");
    proof {
        reveal_strlit("# ");
    }
    if !starts_with_exec(first.as_slice(), hash.as_slice()) {
        return s;
    }
    let ghost rest = lines(s@).drop_first();
    let mut i: usize = 1;
    while i < ls.len() && is_blank(ls[i].as_str())
        invariant
            1 <= i <= ls@.len(),
            string_views(ls@) == lines(s@),
            skip_blank(rest) == skip_blank(string_views(ls@).skip(i as int)),
        decreases ls@.len() - i,
    {
        assert(string_views(ls@).skip(i as int).drop_first() =~= string_views(ls@).skip(i + 1));
        i += 1;
    }
    proof {
        if i < ls@.len() {
            assert(string_views(ls@).skip(i as int)[0] == ls@[i as int]@);
        } else {
            assert(string_views(ls@).skip(i as int) =~= Seq::<Seq<char>>::empty());
        }
    }
    let mut kept: Vec<String> = Vec::new();
    let start = i;
    while i < ls.len()
        invariant
            start <= i <= ls@.len(),
            string_views(kept@) == string_views(ls@).subrange(start as int, i as int),
        decreases ls@.len() - i,
    {
        let c = ls[i].clone();
        proof {
            crate::text::lemma_views_push(kept@, c);
        }
        kept.push(c);
        assert(string_views(ls@).subrange(start as int, i + 1) =~= string_views(ls@).subrange(
            start as int,
            i as int,
        ).push(ls@[i as int]@));
        i += 1;
    }
    proof {
        assert(rest =~= string_views(ls@).skip(1));
        assert(string_views(ls@).subrange(start as int, ls@.len() as int) =~= string_views(ls@).skip(start as int));
    }
    let joined = join_strings(&kept, "\n");
    let cs = chars_of(joined.as_str());
    let a = trim_start_index(cs.as_slice());
    proof {
        assert(cs@.subrange(a as int, cs@.len() as int) =~= cs@.skip(a as int));
        assert(skip_blank(string_views(ls@).skip(start as int)) == string_views(ls@).skip(start as int));
    }
    string_of_range(cs.as_slice(), a, cs.len())
}

/// Whether a line is empty once trimmed.
fn is_blank(l: &str) -> (r: bool)
    ensures
        r == (trim(l@).len() == 0),
{
    let cs = chars_of(l);
    let (a, b) = trim_bounds(cs.as_slice());
    a == b
}

// ---------------------------------------------------------------------------
// File ranges
// ---------------------------------------------------------------------------

/// Lines `start..=end` (numbered from 1) of `content`, joined with `\n`.
pub open spec fn extract_lines_spec(content: Seq<char>, start: u64, end: u64) -> Seq<char> {
    let ls = lines(content);
    let lo: int = if start == 0 {
        0
    } else {
        start - 1
    };
    let hi: int = if end < ls.len() {
        end as int
    } else {
        ls.len() as int
    };
    join(
        if lo < hi {
            ls.subrange(lo, hi)
        } else {
            Seq::empty()
        },
        "\n"@,
    )
}

/// Line `k` (numbered from 1) of a file, asked for alone, is that line.
pub proof fn lemma_extract_single_line(content: Seq<char>, k: u64)
    requires
        1 <= k <= lines(content).len(),
    ensures
        extract_lines_spec(content, k, k) == lines(content)[k - 1],
{
    assert(lines(content).subrange(k - 1, k as int) =~= seq![lines(content)[k - 1]]);
}

/// Two adjacent line ranges of a file, extracted apart and joined by a line
/// break, are the range that spans both.
pub proof fn lemma_extract_adjacent_ranges(content: Seq<char>, start: u64, mid: u64, end: u64)
    requires
        1 <= start <= mid < end <= lines(content).len(),
    ensures
        extract_lines_spec(content, start, end) == extract_lines_spec(content, start, mid) + "\n"@
            + extract_lines_spec(content, (mid + 1) as u64, end),
{
    let ls = lines(content);
    assert(ls.subrange(start - 1, end as int) =~= ls.subrange(start - 1, mid as int) + ls.subrange(
        mid as int,
        end as int,
    ));
    crate::text::lemma_join_concat(ls.subrange(start - 1, mid as int), ls.subrange(mid as int, end as int), "\n"@);
}

/// A range that starts past the last line, or ends before it starts, is
/// empty; one that runs past the end stops at the last line.
pub proof fn lemma_extract_out_of_range(content: Seq<char>, start: u64, end: u64)
    ensures
        (start > lines(content).len() || end < start) ==> extract_lines_spec(content, start, end).len() == 0,
        (1 <= start <= lines(content).len() && end >= lines(content).len()) ==> extract_lines_spec(content, start, end)
            == extract_lines_spec(content, start, lines(content).len() as u64),
{
}

/// Lines `start..=end` (numbered from 1) of `content`, joined with `\n`;
/// empty when no line falls in the range.
pub fn extract_lines(content: &str, start: u64, end: u64) -> (r: String)
    ensures
        r@ == extract_lines_spec(content@, start, end),
{
    let ls = split_lines(content);
    let n = ls.len();
    let lo: u64 = if start == 0 {
        0
    } else {
        start - 1
    };
    let hi: u64 = if end < n as u64 {
        end
    } else {
        n as u64
    };
    let mut kept: Vec<String> = Vec::new();
    if lo < hi {
        let mut i: usize = lo as usize;
        while i < hi as usize
            invariant
                lo <= i <= hi <= n,
                n == ls@.len(),
                string_views(kept@) == string_views(ls@).subrange(lo as int, i as int),
            decreases hi - i,
        {
            let c = ls[i].clone();
            proof {
                crate::text::lemma_views_push(kept@, c);
            }
            kept.push(c);
            assert(string_views(ls@).subrange(lo as int, i + 1) =~= string_views(ls@).subrange(
                lo as int,
                i as int,
            ).push(ls@[i as int]@));
            i += 1;
        }
    } else {
        assert(string_views(kept@) =~= Seq::<Seq<char>>::empty());
    }
    join_strings(&kept, "\n")
}

/// Position just after the `}` that closes the brace opened before `i`,
/// scanning from `i` with `depth` braces open.
pub open spec fn close_brace(s: Seq<char>, i: int, depth: int) -> Option<int>
    decreases s.len() - i,
{
    if i < 0 || i >= s.len() {
        None
    } else {
        let d = if s[i] == '{' {
            depth + 1
        } else if s[i] == '}' {
            depth - 1
        } else {
            depth
        };
        if s[i] == '}' && d == 0 {
            Some(i + 1)
        } else {
            close_brace(s, i + 1, d)
        }
    }
}

/// The text from the start of the line where `pattern` first occurs to the
/// `}` matching the first `{` after it (or to that `{` when it is never
/// closed); `None` when there is no such occurrence or no `{` after it.
pub open spec fn brace_block(s: Seq<char>, pattern: Seq<char>) -> Option<Seq<char>> {
    match find_sub(s, pattern) {
        None => None,
        Some(p) => match crate::text::find_char(s.skip(p), '{') {
            None => None,
            Some(off) => {
                let abs = p + off;
                let from = match rfind_sub(s.take(p), "\n"@) {
                    Some(q) => q + 1,
                    None => 0,
                };
                let end = match close_brace(s, abs, 0) {
                    Some(e) => e,
                    None => abs,
                };
                Some(s.subrange(from, end))
            },
        },
    }
}

/// How a character changes the brace depth.
pub open spec fn brace_delta(c: char) -> int {
    if c == '{' {
        1
    } else if c == '}' {
        -1
    } else {
        0
    }
}

/// Opening minus closing braces in `s[a..k]`.
pub open spec fn brace_depth(s: Seq<char>, a: int, k: int) -> int
    decreases k - a,
{
    if a >= k {
        0
    } else {
        brace_delta(s[a]) + brace_depth(s, a + 1, k)
    }
}

/// Scanning from `i` with `d` braces open stops just after the first `}`
/// that brings the depth back to zero.
proof fn lemma_close_brace_at_balance(s: Seq<char>, i: int, d: int, e: int)
    requires
        0 <= i < e <= s.len(),
        d >= 1,
        s[e - 1] == '}',
        d + brace_depth(s, i, e) == 0,
        forall|k: int| i <= k < e ==> d + #[trigger] brace_depth(s, i, k) >= 1,
    ensures
        close_brace(s, i, d) == Some(e),
    decreases e - i,
{
    let d2 = d + brace_delta(s[i]);
    assert(brace_depth(s, i, i + 1) == brace_delta(s[i]) + brace_depth(s, i + 1, i + 1));
    if e == i + 1 {
        assert(s[i] == '}');
    } else {
        assert(d + brace_depth(s, i, i + 1) >= 1);
        assert forall|k: int| i + 1 <= k < e implies d2 + #[trigger] brace_depth(s, i + 1, k) >= 1 by {
            assert(d + brace_depth(s, i, k) >= 1);
        }
        lemma_close_brace_at_balance(s, i + 1, d2, e);
    }
}

/// The last line break of `t` is just before `from` (none when `from` is
/// 0), when every character from `from` on is not a line break.
proof fn lemma_last_newline(t: Seq<char>, from: int, j: int)
    requires
        0 <= from <= t.len(),
        from - 1 <= j < t.len(),
        from == 0 || t[from - 1] == '\n',
        forall|k: int| from <= k < t.len() ==> t[k] != '\n',
    ensures
        rfind_upto(t, "\n"@, j) == (if from == 0 {
            None::<int>
        } else {
            Some(from - 1)
        }),
    decreases j + 1,
{
    reveal_strlit("\n");
    if j >= 0 {
        if j >= from {
            assert(t.subrange(j, j + 1) != "\n"@) by {
                assert(t.subrange(j, j + 1)[0] == t[j]);
            }
            lemma_last_newline(t, from, j - 1);
        } else {
            assert(t.subrange(j, j + 1) =~= "\n"@);
        }
    }
}

/// The brace block of `pattern` runs from the start of the line of the
/// pattern's first occurrence to the first `}` after the first `{` that
/// follows it at which the braces opened since that `{` are all closed.
pub proof fn lemma_brace_block_extent(s: Seq<char>, pattern: Seq<char>, p: int, from: int, open: int, e: int)
    requires
        occurs_at(s, pattern, p),
        forall|k: int| 0 <= k < p ==> !occurs_at(s, pattern, k),
        0 <= from <= p,
        from == 0 || s[from - 1] == '\n',
        forall|t: int| from <= t < p ==> s[t] != '\n',
        p <= open < s.len(),
        s[open] == '{',
        forall|t: int| p <= t < open ==> s[t] != '{',
        open < e <= s.len(),
        s[e - 1] == '}',
        brace_depth(s, open, e) == 0,
        forall|k: int| open < k < e ==> #[trigger] brace_depth(s, open, k) > 0,
    ensures
        brace_block(s, pattern) == Some(s.subrange(from, e)),
{
    crate::text::lemma_find_first_occurrence(s, pattern, p, 0);
    let t = s.skip(p);
    crate::text::lemma_find_char(t, '{');
    assert(t[open - p] == '{');
    match crate::text::find_char(t, '{') {
        Some(o) => {
            if o < open - p {
                assert(t[o] == s[p + o]);
            }
            if o > open - p {
                assert(t[open - p] != '{');
            }
        },
        None => {
            assert(t[open - p] != '{');
        },
    }
    let u = s.take(p);
    reveal_strlit("\n");
    if p >= 1 {
        assert forall|k: int| from <= k < u.len() implies u[k] != '\n' by {
            assert(u[k] == s[k]);
        }
        if from > 0 {
            assert(u[from - 1] == s[from - 1]);
        }
        lemma_last_newline(u, from, p - 1);
    }
    assert(rfind_sub(u, "\n"@) == rfind_upto(u, "\n"@, p - 1));
    assert(e > open + 1);
    assert(brace_depth(s, open, e) == 1 + brace_depth(s, open + 1, e));
    assert forall|k: int| open + 1 <= k < e implies 1 + #[trigger] brace_depth(s, open + 1, k) >= 1 by {
        assert(brace_depth(s, open, k) == 1 + brace_depth(s, open + 1, k));
    }
    lemma_close_brace_at_balance(s, open + 1, 1, e);
    assert(close_brace(s, open, 0) == close_brace(s, open + 1, 1));
}

/// Finds `pattern` in `content`, then returns the text from the start of
/// its line to the brace that closes the first `{` after it.
pub fn extract_brace_block(content: &str, pattern: &str) -> (r: Option<String>)
    ensures
        match r {
            Some(t) => brace_block(content@, pattern@) == Some(t@),
            None => brace_block(content@, pattern@) is None,
        },
{
    let cs = chars_of(content);
    let pat = chars_of(pattern);
    let p = match find_sub_exec(cs.as_slice(), pat.as_slice(), 0) {
        Some(p) => p,
        None => {
            return None;
        },
    };
    proof {
        crate::text::lemma_find_from_bounds(cs@, pat@, 0);
    }
    // first `{` at or after p
    let mut q: usize = p;
    while q < cs.len() && cs[q] != '{'
        invariant
            p <= q <= cs@.len(),
            forall|t: int| p <= t < q ==> cs@[t] != '{',
        decreases cs@.len() - q,
    {
        q += 1;
    }
    proof {
        let t = cs@.skip(p as int);
        crate::text::lemma_find_char(t, '{');
        if q < cs@.len() {
            assert(t[q - p] == '{');
            match crate::text::find_char(t, '{') {
                Some(o) => {
                    if o < q - p {
                        assert(t[o] == cs@[p + o]);
                    }
                },
                None => {},
            }
        } else {
            match crate::text::find_char(t, '{') {
                Some(o) => {
                    assert(t[o] == cs@[p + o]);
                },
                None => {},
            }
        }
    }
    if q == cs.len() {
        return None;
    }
    // start of the line holding p
    let nl = chars_of("\n");
    proof {
        reveal_strlit("\n");
    }
    let before = crate::text::take_chars(cs.as_slice(), p);
    let found = rfind_sub_exec(before.as_slice(), nl.as_slice());
    proof {
        match found {
            Some(x) => crate::text::lemma_rfind_bounds(cs@.take(p as int), "\n"@, x as int),
            None => {},
        }
    }
    let from: usize = match found {
        Some(x) => x + 1,
        None => 0,
    };
    // matching close brace
    let mut i: usize = q;
    let mut depth: usize = 0;
    while i < cs.len()
        invariant
            from <= p <= q <= i <= cs@.len(),
            depth <= i - q,
            i > q ==> depth >= 1,
            q < cs@.len(),
            cs@[q as int] == '{',
            close_brace(cs@, q as int, 0) == close_brace(cs@, i as int, depth as int),
            brace_block(content@, pattern@) == Some(cs@.subrange(
                from as int,
                match close_brace(cs@, q as int, 0) {
                    Some(e) => e,
                    None => q as int,
                },
            )),
            cs@ == content@,
        decreases cs@.len() - i,
    {
        let c = cs[i];
        if c == '{' {
            depth = depth + 1;
        } else if c == '}' {
            if depth == 1 {
                return Some(string_of_range(cs.as_slice(), from, i + 1));
            }
            depth = depth - 1;
        }
        i += 1;
    }
    proof {
        assert(close_brace(cs@, i as int, depth as int) is None);
    }
    Some(string_of_range(cs.as_slice(), from, q))
}

/// The comment that stands for a function that was not found.
pub open spec fn not_found_comment(name: Seq<char>) -> Seq<char> {
    "<!-- function '"@ + name + "' not found -->"@
}

fn not_found(name: &str) -> (r: String)
    ensures
        r@ == not_found_comment(name@),
{
    let mut r = owned("<!-- function '");
    push_str(&mut r, name);
    push_str(&mut r, "' not found -->");
    r
}

/// `s` between `a` and `b`.
fn surround(a: &str, s: &str, b: &str) -> (r: String)
    ensures
        r@ == a@ + s@ + b@,
{
    let mut r = owned(a);
    push_str(&mut r, s);
    push_str(&mut r, b);
    r
}

/// The block for `pattern`, or the not-found comment for `name`.
pub open spec fn block_or_missing(content: Seq<char>, pattern: Seq<char>, name: Seq<char>) -> Seq<char> {
    match brace_block(content, pattern) {
        Some(b) => b,
        None => not_found_comment(name),
    }
}

/// The Rust function `name`: from its `fn name(` line to its closing brace.
pub fn extract_rust_function(content: &str, name: &str) -> (r: String)
    ensures
        r@ == block_or_missing(content@, "fn "@ + name@ + "("@, name@),
{
    let pattern = surround("fn ", name, "(");
    match extract_brace_block(content, pattern.as_str()) {
        Some(b) => b,
        None => not_found(name),
    }
}

/// Generic fallback: the brace block after `name(`.
pub fn extract_brace_function(content: &str, name: &str) -> (r: String)
    ensures
        r@ == block_or_missing(content@, name@ + "("@, name@),
{
    let pattern = concat2(name, "(");
    match extract_brace_block(content, pattern.as_str()) {
        Some(b) => b,
        None => not_found(name),
    }
}

/// The JavaScript or TypeScript function `name`, declared as
/// `function name(`, as `const name =`, or found as `name(`.
pub open spec fn js_function_spec(content: Seq<char>, name: Seq<char>) -> Seq<char> {
    match brace_block(content, "function "@ + name + "("@) {
        Some(b) => b,
        None => match brace_block(content, "const "@ + name + " ="@) {
            Some(b) => b,
            None => block_or_missing(content, name + "("@, name),
        },
    }
}

/// The JavaScript or TypeScript function `name`.
pub fn extract_js_function(content: &str, name: &str) -> (r: String)
    ensures
        r@ == js_function_spec(content@, name@),
{
    let p1 = surround("function ", name, "(");
    if let Some(b) = extract_brace_block(content, p1.as_str()) {
        return b;
    }
    let p2 = surround("const ", name, " =");
    if let Some(b) = extract_brace_block(content, p2.as_str()) {
        return b;
    }
    let p3 = concat2(name, "(");
    match extract_brace_block(content, p3.as_str()) {
        Some(b) => b,
        None => not_found(name),
    }
}

/// Number of leading white-space characters of a line.
pub open spec fn indent(l: Seq<char>) -> nat
    decreases l.len(),
{
    if l.len() > 0 && crate::text::is_ws(l[0]) {
        1 + indent(l.drop_first())
    } else {
        0
    }
}

fn indent_exec(l: &str) -> (r: usize)
    ensures
        r == indent(l@),
{
    let cs = chars_of(l);
    let mut i: usize = 0;
    assert(cs@.skip(0) =~= cs@);
    while i < cs.len() && crate::text::is_whitespace(cs[i])
        invariant
            i <= cs@.len(),
            indent(cs@) == i + indent(cs@.skip(i as int)),
        decreases cs@.len() - i,
    {
        assert(cs@.skip(i as int).drop_first() =~= cs@.skip(i + 1));
        i += 1;
    }
    i
}

/// The lines of a Python function body: blank lines, and lines indented
/// deeper than `base`, up to the first other line.
pub open spec fn py_body(rest: Seq<Seq<char>>, base: nat) -> Seq<Seq<char>>
    decreases rest.len(),
{
    if rest.len() == 0 {
        Seq::empty()
    } else if trim(rest[0]).len() == 0 || indent(rest[0]) > base {
        seq![rest[0]] + py_body(rest.drop_first(), base)
    } else {
        Seq::empty()
    }
}

/// The Python function `name`: the line where `def name(` occurs (counted
/// as the number of lines before that occurrence) and the indented lines
/// after it, joined with `\n`.
pub open spec fn python_function_spec(content: Seq<char>, name: Seq<char>) -> Seq<char> {
    match find_sub(content, "def "@ + name + "("@) {
        None => not_found_comment(name),
        Some(p) => {
            let start_line = lines(content.take(p)).len();
            let ls = lines(content);
            if start_line >= ls.len() {
                not_found_comment(name)
            } else {
                join(seq![ls[start_line as int]] + py_body(ls.skip((start_line + 1) as int), indent(ls[start_line as int])), "\n"@)
            }
        },
    }
}

/// The Python function `name`.
pub fn extract_python_function(content: &str, name: &str) -> (r: String)
    ensures
        r@ == python_function_spec(content@, name@),
{
    let pattern = surround("def ", name, "(");
    let cs = chars_of(content);
    let pat = chars_of(pattern.as_str());
    let p = match find_sub_exec(cs.as_slice(), pat.as_slice(), 0) {
        Some(p) => p,
        None => {
            return not_found(name);
        },
    };
    proof {
        crate::text::lemma_find_from_bounds(cs@, pat@, 0);
    }
    let before_cs = crate::text::take_chars(cs.as_slice(), p);
    let before = string_of_range(before_cs.as_slice(), 0, p);
    assert(before_cs@.subrange(0, p as int) =~= cs@.take(p as int));
    let start_line = split_lines(before.as_str()).len();
    let ls = split_lines(content);
    if start_line >= ls.len() {
        return not_found(name);
    }
    let base = indent_exec(ls[start_line].as_str());
    let mut out: Vec<String> = Vec::new();
    let first = ls[start_line].clone();
    proof {
        crate::text::lemma_views_push(out@, first);
    }
    out.push(first);
    let ghost lv = string_views(ls@);
    let mut i: usize = start_line + 1;
    assert(string_views(out@) =~= seq![lv[start_line as int]]);
    while i < ls.len()
        invariant
            start_line < i <= ls@.len(),
            lv == string_views(ls@),
            base == indent(lv[start_line as int]),
            string_views(out@) + py_body(lv.skip(i as int), base as nat) == seq![lv[start_line as int]] + py_body(
                lv.skip(start_line + 1),
                base as nat,
            ),
        ensures
            start_line < i <= ls@.len(),
            string_views(out@) + py_body(lv.skip(i as int), base as nat) == seq![lv[start_line as int]] + py_body(
                lv.skip(start_line + 1),
                base as nat,
            ),
            py_body(lv.skip(i as int), base as nat).len() == 0,
        decreases ls@.len() - i,
    {
        let blank = is_blank(ls[i].as_str());
        let ind = indent_exec(ls[i].as_str());
        assert(lv.skip(i as int)[0] == ls@[i as int]@);
        assert(lv.skip(i as int).drop_first() =~= lv.skip(i + 1));
        if !blank && ind <= base {
            break;
        }
        let c = ls[i].clone();
        let ghost before_out = out@;
        proof {
            crate::text::lemma_views_push(out@, c);
        }
        out.push(c);
        proof {
            assert(string_views(out@) + py_body(lv.skip(i + 1), base as nat) =~= string_views(before_out) + py_body(
                lv.skip(i as int),
                base as nat,
            ));
        }
        i += 1;
    }
    proof {
        assert(py_body(lv.skip(i as int), base as nat) =~= Seq::<Seq<char>>::empty());
        assert(string_views(out@) + Seq::<Seq<char>>::empty() =~= string_views(out@));
    }
    join_strings(&out, "\n")
}

/// A Python body runs over the lines after the `def` line up to, not
/// including, the first line that is not blank and is indented no deeper
/// than the `def`: it is that prefix of the lines, every line in it is
/// blank or indented deeper, and the line after it (if any) is neither.
pub proof fn lemma_python_body_extent(rest: Seq<Seq<char>>, base: nat)
    ensures
        py_body(rest, base).len() <= rest.len(),
        py_body(rest, base) == rest.take(py_body(rest, base).len() as int),
        forall|j: int|
            0 <= j < py_body(rest, base).len() ==> trim(#[trigger] rest[j]).len() == 0 || indent(rest[j]) > base,
        py_body(rest, base).len() < rest.len() ==> trim(rest[py_body(rest, base).len() as int]).len() != 0
            && indent(rest[py_body(rest, base).len() as int]) <= base,
    decreases rest.len(),
{
    if rest.len() > 0 && (trim(rest[0]).len() == 0 || indent(rest[0]) > base) {
        let tail = rest.drop_first();
        lemma_python_body_extent(tail, base);
        let n = py_body(tail, base).len() as int;
        assert(py_body(rest, base) == seq![rest[0]] + py_body(tail, base));
        assert(rest.take(n + 1) =~= seq![rest[0]] + tail.take(n));
        assert forall|j: int| 0 <= j < n + 1 implies trim(#[trigger] rest[j]).len() == 0 || indent(rest[j]) > base by {
            if j > 0 {
                assert(rest[j] == tail[j - 1]);
            }
        }
        if n + 1 < rest.len() {
            assert(rest[n + 1] == tail[n]);
        }
    } else if rest.len() == 0 {
        assert(rest.take(0) =~= Seq::<Seq<char>>::empty());
    } else {
        assert(rest.take(0) =~= Seq::<Seq<char>>::empty());
    }
}

/// The Python function found at line `s` (the line of its `def`) is the
/// lines from `s` up to, not including, the first later line that is not
/// blank and is indented no deeper than the `def` line (or to the end),
/// joined with `\n`: blank lines inside the body do not end it.
pub proof fn lemma_python_function_extent(content: Seq<char>, name: Seq<char>, p: int)
    requires
        find_sub(content, "def "@ + name + "("@) == Some(p),
        lines(content.take(p)).len() < lines(content).len(),
    ensures
        ({
            let ls = lines(content);
            let s = lines(content.take(p)).len() as int;
            exists|e: int|
                {
                    &&& s < e <= ls.len()
                    &&& python_function_spec(content, name) == join(ls.subrange(s, e), "\n"@)
                    &&& forall|j: int|
                        s < j < e ==> trim(#[trigger] ls[j]).len() == 0 || indent(ls[j]) > indent(ls[s])
                    &&& e < ls.len() ==> trim(ls[e]).len() != 0 && indent(ls[e]) <= indent(ls[s])
                }
        }),
{
    let ls = lines(content);
    let s = lines(content.take(p)).len() as int;
    let base = indent(ls[s]);
    let rest = ls.skip(s + 1);
    lemma_python_body_extent(rest, base);
    let n = py_body(rest, base).len() as int;
    let e = s + 1 + n;
    assert(seq![ls[s]] + py_body(rest, base) =~= ls.subrange(s, e));
    assert forall|j: int| s < j < e implies trim(#[trigger] ls[j]).len() == 0 || indent(ls[j]) > base by {
        assert(ls[j] == rest[j - s - 1]);
    }
    if e < ls.len() {
        assert(ls[e] == rest[n]);
    }
}

/// The function `name` of a source file with extension `ext`: Rust for
/// `rs`, Python for `py`, JavaScript for `js`, `ts`, `jsx` and `tsx`, and
/// the generic brace rule otherwise.
pub open spec fn function_spec(content: Seq<char>, name: Seq<char>, ext: Seq<char>) -> Seq<char> {
    if ext == "rs"@ {
        block_or_missing(content, "fn "@ + name + "("@, name)
    } else if ext == "py"@ {
        python_function_spec(content, name)
    } else if ext == "js"@ || ext == "ts"@ || ext == "jsx"@ || ext == "tsx"@ {
        js_function_spec(content, name)
    } else {
        block_or_missing(content, name + "("@, name)
    }
}

/// The function `name` of a file whose extension is `ext` (empty when the
/// path has none).
pub fn extract_function(content: &str, name: &str, ext: &str) -> (r: String)
    ensures
        r@ == function_spec(content@, name@, ext@),
{
    if str_eq(ext, "rs") {
        extract_rust_function(content, name)
    } else if str_eq(ext, "py") {
        extract_python_function(content, name)
    } else if str_eq(ext, "js") || str_eq(ext, "ts") || str_eq(ext, "jsx") || str_eq(ext, "tsx") {
        extract_js_function(content, name)
    } else {
        extract_brace_function(content, name)
    }
}

/// The part of a file's text that `range` selects; `ext` is the extension
/// of the file's path (empty when it has none).
pub open spec fn file_range_spec(content: Seq<char>, range: FileRange, ext: Seq<char>) -> Seq<char> {
    match range {
        FileRange::Full => content,
        FileRange::Lines(start, end) => extract_lines_spec(content, start, end),
        FileRange::Function(name) => function_spec(content, name@, ext),
    }
}

/// The part of a file's text that `range` selects.
pub fn apply_file_range(content: String, range: &FileRange, ext: &str) -> (r: String)
    ensures
        r@ == file_range_spec(content@, *range, ext@),
{
    match range {
        FileRange::Full => content,
        FileRange::Lines(start, end) => extract_lines(content.as_str(), *start, *end),
        FileRange::Function(name) => extract_function(content.as_str(), name.as_str(), ext),
    }
}

/// The text that stands for a file that could not be read.
pub fn read_error_comment(path: &str, error: &str) -> (r: String)
    ensures
        r@ == "<!-- could not read "@ + path@ + ": "@ + error@ + " -->"@,
{
    let mut r = owned("<!-- could not read ");
    push_str(&mut r, path);
    push_str(&mut r, ": ");
    push_str(&mut r, error);
    push_str(&mut r, " -->");
    r
}

// ---------------------------------------------------------------------------
// Memory sections
// ---------------------------------------------------------------------------

/// The line of a memory entry in a memory section.
pub open spec fn memory_line(kv: (Seq<char>, Seq<char>)) -> Seq<char> {
    "**"@ + kv.0 + "**: "@ + kv.1
}

/// The content of the memory section of a topic.
pub open spec fn memory_section_text(listing: Seq<(Seq<char>, Seq<char>)>) -> Seq<char> {
    join(listing.map_values(|kv: (Seq<char>, Seq<char>)| memory_line(kv)), "\n"@)
}

/// The memory section of a single entry is its `**key**: value` line.
pub proof fn lemma_memory_section_single(key: Seq<char>, value: Seq<char>)
    ensures
        memory_section_text(seq![(key, value)]) == "**"@ + key + "**: "@ + value,
{
    let l = seq![(key, value)].map_values(|kv: (Seq<char>, Seq<char>)| memory_line(kv));
    assert(l.len() == 1);
    assert(l[0] == memory_line((key, value)));
}

/// One more entry listed under a topic adds exactly one line to its memory
/// section, after the others: `\n**key**: value`.
pub proof fn lemma_memory_section_grows(listing: Seq<(Seq<char>, Seq<char>)>, key: Seq<char>, value: Seq<char>)
    requires
        listing.len() > 0,
    ensures
        memory_section_text(listing.push((key, value))) == memory_section_text(listing) + "\n"@ + "**"@ + key
            + "**: "@ + value,
{
    let f = |kv: (Seq<char>, Seq<char>)| memory_line(kv);
    let l = listing.push((key, value)).map_values(f);
    assert(l.drop_last() =~= listing.map_values(f));
    assert(l.last() == memory_line((key, value)));
    assert(l.len() > 1);
}

/// The `(topic, content)` of the memory sections for `topics`: one per
/// topic that has entries, in order.
pub open spec fn memory_sections_spec(mem: MemoryRuntime, topics: Seq<Seq<char>>) -> Seq<(Seq<char>, Seq<char>)>
    decreases topics.len(),
{
    if topics.len() == 0 {
        Seq::empty()
    } else {
        let prev = memory_sections_spec(mem, topics.drop_last());
        let listing = mem.topic_listing(topics.last());
        if listing.len() == 0 {
            prev
        } else {
            prev.push((topics.last(), memory_section_text(listing)))
        }
    }
}

/// Each memory section belongs to one of the topics asked for that has
/// entries, and holds the lines of all of that topic's entries; a topic
/// with entries gets a section.
pub proof fn lemma_memory_sections_content(mem: MemoryRuntime, topics: Seq<Seq<char>>)
    ensures
        memory_sections_spec(mem, topics).len() <= topics.len(),
        forall|i: int|
            0 <= i < memory_sections_spec(mem, topics).len() ==> {
                let sec = #[trigger] memory_sections_spec(mem, topics)[i];
                &&& topics.contains(sec.0)
                &&& mem.topic_listing(sec.0).len() > 0
                &&& sec.1 == memory_section_text(mem.topic_listing(sec.0))
            },
        forall|t: Seq<char>|
            #[trigger] topics.contains(t) && mem.topic_listing(t).len() > 0 ==> exists|i: int|
                0 <= i < memory_sections_spec(mem, topics).len() && #[trigger] memory_sections_spec(mem, topics)[i].0
                    == t,
    decreases topics.len(),
{
    if topics.len() > 0 {
        let init = topics.drop_last();
        lemma_memory_sections_content(mem, init);
        let prev = memory_sections_spec(mem, init);
        let cur = memory_sections_spec(mem, topics);
        assert forall|i: int| 0 <= i < cur.len() implies {
            let sec = #[trigger] cur[i];
            &&& topics.contains(sec.0)
            &&& mem.topic_listing(sec.0).len() > 0
            &&& sec.1 == memory_section_text(mem.topic_listing(sec.0))
        } by {
            if i < prev.len() {
                assert(cur[i] == prev[i]);
                let j = choose|j: int| 0 <= j < init.len() && init[j] == prev[i].0;
                assert(topics[j] == init[j]);
            } else {
                assert(topics[topics.len() - 1] == topics.last());
            }
        }
        assert forall|t: Seq<char>| #[trigger] topics.contains(t) && mem.topic_listing(t).len() > 0 implies exists|i: int|
            0 <= i < cur.len() && #[trigger] cur[i].0 == t by {
            let j = choose|j: int| 0 <= j < topics.len() && topics[j] == t;
            if j < topics.len() - 1 {
                assert(init[j] == t);
                assert(init.contains(t));
                let i = choose|i: int| 0 <= i < prev.len() && #[trigger] prev[i].0 == t;
                assert(cur[i] == prev[i]);
            } else {
                assert(cur[prev.len() as int].0 == t);
            }
        }
    }
}

/// A section is the memory section of `topic` with `content`.
pub open spec fn is_memory_section(s: ContextSection, topic: Seq<char>, content: Seq<char>) -> bool {
    &&& s.name@ == "memory:"@ + topic
    &&& s.content@ == content
    &&& s.source matches ContextSource::Memory { topic: t } && t@ == topic
}

/// The memory sections for `topics`: for each topic with entries in the
/// session, project or global store, its `**key**: value` lines.
pub fn load_memory_topics(topics: &Vec<String>, memory: &MemoryRuntime) -> (r: Vec<ContextSection>)
    requires
        memory.wf(),
    ensures
        r@.len() == memory_sections_spec(*memory, string_views(topics@)).len(),
        forall|i: int| 0 <= i < r@.len() ==> is_memory_section(
            #[trigger] r@[i],
            memory_sections_spec(*memory, string_views(topics@))[i].0,
            memory_sections_spec(*memory, string_views(topics@))[i].1,
        ),
{
    let mut out: Vec<ContextSection> = Vec::new();
    let mut i: usize = 0;
    while i < topics.len()
        invariant
            memory.wf(),
            i <= topics@.len(),
            out@.len() == memory_sections_spec(*memory, string_views(topics@).take(i as int)).len(),
            forall|j: int| 0 <= j < out@.len() ==> is_memory_section(
                #[trigger] out@[j],
                memory_sections_spec(*memory, string_views(topics@).take(i as int))[j].0,
                memory_sections_spec(*memory, string_views(topics@).take(i as int))[j].1,
            ),
        decreases topics@.len() - i,
    {
        let ghost tv = string_views(topics@);
        assert(tv.take(i + 1).drop_last() =~= tv.take(i as int));
        assert(tv.take(i + 1).last() == topics@[i as int]@);
        let entries = memory.list_topic(topics[i].as_str());
        if entries.len() > 0 {
            let mut parts: Vec<String> = Vec::new();
            let mut k: usize = 0;
            while k < entries.len()
                invariant
                    k <= entries@.len(),
                    string_views(parts@) == pair_views(entries@).take(k as int).map_values(
                        |kv: (Seq<char>, Seq<char>)| memory_line(kv),
                    ),
                decreases entries@.len() - k,
            {
                let mut line = owned("**");
                push_str(&mut line, entries[k].0.as_str());
                push_str(&mut line, "**: ");
                push_str(&mut line, entries[k].1.as_str());
                proof {
                    crate::text::lemma_views_push(parts@, line);
                    assert(pair_views(entries@).take(k + 1) =~= pair_views(entries@).take(k as int).push(
                        (entries@[k as int].0@, entries@[k as int].1@),
                    ));
                }
                parts.push(line);
                proof {
                    assert(string_views(parts@) =~= pair_views(entries@).take(k + 1).map_values(
                        |kv: (Seq<char>, Seq<char>)| memory_line(kv),
                    ));
                }
                k += 1;
            }
            let content = join_strings(&parts, "\n");
            let name = concat2("memory:", topics[i].as_str());
            let section = ContextSection {
                name,
                content,
                source: ContextSource::Memory { topic: topics[i].clone() },
            };
            proof {
                assert(pair_views(entries@).take(k as int) =~= pair_views(entries@));
            }
            out.push(section);
        }
        proof {
            let prev = memory_sections_spec(*memory, tv.take(i as int));
            let now = memory_sections_spec(*memory, tv.take(i + 1));
            assert forall|j: int| 0 <= j < out@.len() implies is_memory_section(
                #[trigger] out@[j],
                now[j].0,
                now[j].1,
            ) by {
                if j < prev.len() {
                    assert(now[j] == prev[j]);
                }
            }
        }
        i += 1;
    }
    proof {
        assert(string_views(topics@).take(i as int) =~= string_views(topics@));
    }
    out
}

// ---------------------------------------------------------------------------
// Prompt assembly and token budget
// ---------------------------------------------------------------------------

/// The prompt text of one section.
pub open spec fn section_part(s: ContextSection) -> Seq<char> {
    match s.source {
        ContextSource::SystemHint => s.content@,
        ContextSource::Node { id, .. } => "## Node: "@ + id@ + "\n\n"@ + s.content@,
        ContextSource::File { path } => "## File: "@ + path@ + "\n\n```\n"@ + s.content@ + "\n```"@,
        ContextSource::Memory { topic } => "## Memory: "@ + topic@ + "\n\n"@ + s.content@,
    }
}

/// The prompt made of the sections: each rendered by `section_part`,
/// separated by blank lines.
pub open spec fn prompt_spec(sections: Seq<ContextSection>) -> Seq<char> {
    join(sections.map_values(|s: ContextSection| section_part(s)), "\n\n"@)
}

/// One more section adds its part to the prompt after a blank line.
pub proof fn lemma_prompt_appends_section(sections: Seq<ContextSection>, s: ContextSection)
    requires
        sections.len() > 0,
    ensures
        prompt_spec(sections.push(s)) == prompt_spec(sections) + "\n\n"@ + prompt_spec(seq![s]),
{
    let f = |x: ContextSection| section_part(x);
    assert(sections.push(s).map_values(f) =~= sections.map_values(f) + seq![s].map_values(f));
    crate::text::lemma_join_concat(sections.map_values(f), seq![s].map_values(f), "\n\n"@);
    assert(seq![s].map_values(f) =~= seq![section_part(s)]);
}

/// How one section reads in a prompt: the system hint as it is; a node
/// under `## Node: <id>`, a memory topic under `## Memory: <topic>`, each
/// after a blank line; a file under `## File: <path>`, fenced as code.
pub proof fn lemma_prompt_of_one_section(s: ContextSection)
    ensures
        s.source is SystemHint ==> prompt_spec(seq![s]) == s.content@,
        s.source matches ContextSource::Node { id, .. } ==> prompt_spec(seq![s]) == "## Node: "@ + id@ + "\n\n"@
            + s.content@,
        s.source matches ContextSource::File { path } ==> prompt_spec(seq![s]) == "## File: "@ + path@
            + "\n\n```\n"@ + s.content@ + "\n```"@,
        s.source matches ContextSource::Memory { topic } ==> prompt_spec(seq![s]) == "## Memory: "@ + topic@
            + "\n\n"@ + s.content@,
{
    let f = |x: ContextSection| section_part(x);
    assert(seq![s].map_values(f) =~= seq![section_part(s)]);
}

/// Assembles the prompt from the sections.
pub fn assemble_prompt(sections: &Vec<ContextSection>) -> (r: String)
    ensures
        r@ == prompt_spec(sections@),
{
    let mut parts: Vec<String> = Vec::new();
    let mut i: usize = 0;
    while i < sections.len()
        invariant
            i <= sections@.len(),
            string_views(parts@) == sections@.take(i as int).map_values(|s: ContextSection| section_part(s)),
        decreases sections@.len() - i,
    {
        let s = &sections[i];
        let part = match &s.source {
            ContextSource::SystemHint => s.content.clone(),
            ContextSource::Node { id, .. } => {
                let mut p = owned("## Node: ");
                push_str(&mut p, id.as_str());
                push_str(&mut p, "\n\n");
                push_str(&mut p, s.content.as_str());
                p
            },
            ContextSource::File { path } => {
                let mut p = owned("## File: ");
                push_str(&mut p, path.as_str());
                push_str(&mut p, "\n\n```\n");
                push_str(&mut p, s.content.as_str());
                push_str(&mut p, "\n```");
                p
            },
            ContextSource::Memory { topic } => {
                let mut p = owned("## Memory: ");
                push_str(&mut p, topic.as_str());
                push_str(&mut p, "\n\n");
                push_str(&mut p, s.content.as_str());
                p
            },
        };
        proof {
            crate::text::lemma_views_push(parts@, part);
            assert(sections@.take(i + 1) =~= sections@.take(i as int).push(sections@[i as int]));
        }
        parts.push(part);
        proof {
            assert(string_views(parts@) =~= sections@.take(i + 1).map_values(|s: ContextSection| section_part(s)));
        }
        i += 1;
    }
    proof {
        assert(sections@.take(i as int) =~= sections@);
    }
    join_strings(&parts, "\n\n")
}

/// Estimated token count of a text: its UTF-8 length divided by four.
pub fn estimate_tokens(text: &str) -> (r: usize)
    ensures
        r == text.len() / 4,
{
    text.len() / 4
}

/// Length in bytes of the UTF-8 encoding of a text.
pub open spec fn byte_len(s: Seq<char>) -> nat {
    vstd::utf8::encode_utf8(s).len()
}

/// Total UTF-8 length of the contents of the sections.
pub open spec fn total_bytes(ss: Seq<ContextSection>) -> nat
    decreases ss.len(),
{
    if ss.len() == 0 {
        0
    } else {
        total_bytes(ss.drop_last()) + byte_len(ss.last().content@)
    }
}

proof fn lemma_total_bytes_prefix(ss: Seq<ContextSection>, k: int)
    requires
        0 <= k <= ss.len(),
    ensures
        total_bytes(ss.take(k)) <= total_bytes(ss),
    decreases ss.len(),
{
    if k < ss.len() {
        assert(ss.drop_last().take(k) =~= ss.take(k));
        lemma_total_bytes_prefix(ss.drop_last(), k);
    } else {
        assert(ss.take(k) =~= ss);
    }
}

/// Estimated token count of the sections' contents: their total UTF-8
/// length divided by four.
pub fn estimate_total_tokens(sections: &Vec<ContextSection>) -> (r: usize)
    requires
        total_bytes(sections@) <= usize::MAX,
    ensures
        r == total_bytes(sections@) / 4,
{
    let mut total: usize = 0;
    let mut i: usize = 0;
    while i < sections.len()
        invariant
            i <= sections@.len(),
            total == total_bytes(sections@.take(i as int)),
            total_bytes(sections@) <= usize::MAX,
        decreases sections@.len() - i,
    {
        proof {
            assert(sections@.take(i + 1).drop_last() =~= sections@.take(i as int));
            lemma_total_bytes_prefix(sections@, i + 1);
        }
        let n = sections[i].content.as_str().len();
        total = total + n;
        i += 1;
    }
    assert(sections@.take(i as int) =~= sections@);
    total / 4
}

/// How many leading sections `truncate_to_budget` keeps, looking at the
/// first `k`: it drops the last one while more than one remain and their
/// estimate exceeds `budget`.
pub open spec fn kept_sections(ss: Seq<ContextSection>, budget: nat, k: nat) -> nat
    decreases k,
{
    if k > 1 && total_bytes(ss.take(k as int)) / 4 > budget {
        kept_sections(ss, budget, (k - 1) as nat)
    } else {
        k
    }
}

/// Truncation keeps the longest prefix that fits the budget: the kept
/// sections fit (unless only one is left), every longer prefix does not,
/// at least one section is kept, and sections that already fit are all
/// kept.
pub proof fn lemma_truncation_keeps_longest_fit(ss: Seq<ContextSection>, budget: nat, k: nat)
    requires
        k <= ss.len(),
    ensures
        kept_sections(ss, budget, k) <= k,
        k >= 1 ==> kept_sections(ss, budget, k) >= 1,
        kept_sections(ss, budget, k) > 1 ==> total_bytes(ss.take(kept_sections(ss, budget, k) as int)) / 4 <= budget,
        forall|j: nat| kept_sections(ss, budget, k) < j <= k ==> total_bytes(#[trigger] ss.take(j as int)) / 4 > budget,
        total_bytes(ss.take(k as int)) / 4 <= budget ==> kept_sections(ss, budget, k) == k,
    decreases k,
{
    if k > 1 && total_bytes(ss.take(k as int)) / 4 > budget {
        lemma_truncation_keeps_longest_fit(ss, budget, (k - 1) as nat);
    }
}

/// Drops sections from the end (lowest priority first) until the estimate
/// of the rest fits in `budget` tokens; at least one section is kept.
pub fn truncate_to_budget(sections: Vec<ContextSection>, budget: usize) -> (r: Vec<ContextSection>)
    requires
        total_bytes(sections@) <= usize::MAX,
    ensures
        r@ == sections@.take(kept_sections(sections@, budget as nat, sections@.len()) as int),
{
    let ghost orig = sections@;
    let mut sections = sections;
    assert(orig.take(orig.len() as int) =~= orig);
    while sections.len() > 1
        invariant
            sections@ == orig.take(sections@.len() as int),
            sections@.len() <= orig.len(),
            kept_sections(orig, budget as nat, orig.len()) == kept_sections(orig, budget as nat, sections@.len()),
            total_bytes(orig) <= usize::MAX,
        ensures
            sections@ == orig.take(sections@.len() as int),
            kept_sections(orig, budget as nat, orig.len()) == sections@.len(),
        decreases sections@.len(),
    {
        proof {
            lemma_total_bytes_prefix(orig, sections@.len() as int);
        }
        if estimate_total_tokens(&sections) <= budget {
            break;
        }
        let _ = sections.pop();
        assert(sections@ =~= orig.take(sections@.len() as int));
    }
    sections
}

// ---------------------------------------------------------------------------
// Planning and filling sections
// ---------------------------------------------------------------------------

/// A section to put in a context, before its content is fetched.
pub enum SectionPlan {
    /// The system hint, with its text.
    SystemHint(String),
    /// A node to render at `mode`, under section name `name`.
    Node { name: String, id: String, mode: LoadMode },
    /// A file to read and cut to `range`.
    File { path: String, range: FileRange },
    /// A memory topic, with its section text.
    Memory { topic: String, content: String },
}

/// What a planned section is, as plain values.
pub enum PlanView {
    /// System hint text.
    SystemHint(Seq<char>),
    /// Section name, node id and load mode.
    Node(Seq<char>, Seq<char>, LoadMode),
    /// Path and range.
    File(Seq<char>, FileRange),
    /// Topic and section text.
    Memory(Seq<char>, Seq<char>),
}

impl View for SectionPlan {
    type V = PlanView;

    open spec fn view(&self) -> PlanView {
        match self {
            SectionPlan::SystemHint(h) => PlanView::SystemHint(h@),
            SectionPlan::Node { name, id, mode } => PlanView::Node(name@, id@, *mode),
            SectionPlan::File { path, range } => PlanView::File(path@, *range),
            SectionPlan::Memory { topic, content } => PlanView::Memory(topic@, content@),
        }
    }
}

/// The plan of a summary dependency section for id `x`.
pub open spec fn summary_plan(x: Seq<char>) -> PlanView {
    PlanView::Node("dep:"@ + x, x, LoadMode::Summary)
}

/// A plan is the summary dependency section of an id of `s`.
pub open spec fn is_summary_dep(p: PlanView, s: Set<Seq<char>>) -> bool {
    match p {
        PlanView::Node(n, id, m) => n == "dep:"@ + id && m == LoadMode::Summary && s.contains(id),
        _ => false,
    }
}

/// The node id of a node plan.
pub open spec fn plan_id(p: PlanView) -> Seq<char> {
    match p {
        PlanView::Node(_, id, _) => id,
        _ => Seq::empty(),
    }
}

/// Views of a list of plans.
pub open spec fn plan_views(v: Seq<SectionPlan>) -> Seq<PlanView> {
    v.map_values(|p: SectionPlan| p@)
}

/// The file has a node with id `x`.
pub open spec fn in_file(file: AgmFile, x: Seq<char>) -> bool {
    exists|i: int| 0 <= i < file.nodes@.len() && #[trigger] file.nodes@[i].id@ == x
}

/// Node sections, named `prefix` + id, for the ids of `ids` that the file
/// has, in order.
pub open spec fn node_plans(file: AgmFile, ids: Seq<Seq<char>>, prefix: Seq<char>, mode: LoadMode) -> Seq<PlanView>
    decreases ids.len(),
{
    if ids.len() == 0 {
        Seq::empty()
    } else {
        let prev = node_plans(file, ids.drop_last(), prefix, mode);
        if in_file(file, ids.last()) {
            prev.push(PlanView::Node(prefix + ids.last(), ids.last(), mode))
        } else {
            prev
        }
    }
}

/// Whether the file has a node with id `id`.
pub fn file_has_node(file: &AgmFile, id: &str) -> (r: bool)
    ensures
        r == in_file(*file, id@),
{
    let mut i: usize = 0;
    while i < file.nodes.len()
        invariant
            i <= file.nodes@.len(),
            forall|j: int| 0 <= j < i ==> #[trigger] file.nodes@[j].id@ != id@,
        decreases file.nodes@.len() - i,
    {
        if str_eq(file.nodes[i].id.as_str(), id) {
            return true;
        }
        i += 1;
    }
    false
}

fn push_node_plans(out: &mut Vec<SectionPlan>, file: &AgmFile, ids: &Vec<String>, prefix: &str, mode: LoadMode)
    ensures
        plan_views(final(out)@) == plan_views(old(out)@) + node_plans(*file, string_views(ids@), prefix@, mode),
{
    let ghost start = plan_views(out@);
    let mut i: usize = 0;
    while i < ids.len()
        invariant
            i <= ids@.len(),
            plan_views(out@) == start + node_plans(*file, string_views(ids@).take(i as int), prefix@, mode),
        decreases ids@.len() - i,
    {
        let ghost iv = string_views(ids@);
        assert(iv.take(i + 1).drop_last() =~= iv.take(i as int));
        if file_has_node(file, ids[i].as_str()) {
            let p = SectionPlan::Node { name: concat2(prefix, ids[i].as_str()), id: ids[i].clone(), mode };
            let ghost before = out@;
            out.push(p);
            assert(plan_views(out@) =~= plan_views(before).push(p@));
        }
        i += 1;
    }
    assert(string_views(ids@).take(i as int) =~= string_views(ids@));
}

/// Plan of the default context of a node (one without `agent_context`):
/// the node in full, then each of its direct dependencies that the file
/// has, at operational level.
pub fn plan_default_context(node: &Node, file: &AgmFile) -> (r: Vec<SectionPlan>)
    ensures
        plan_views(r@) == seq![PlanView::Node("node:"@ + node.id@, node.id@, LoadMode::Full)] + match node.depends {
            Some(d) => node_plans(*file, string_views(d@), "dep:"@, LoadMode::Operational),
            None => Seq::empty(),
        },
{
    let mut out: Vec<SectionPlan> = Vec::new();
    out.push(SectionPlan::Node { name: concat2("node:", node.id.as_str()), id: node.id.clone(), mode: LoadMode::Full });
    assert(plan_views(out@) =~= seq![PlanView::Node("node:"@ + node.id@, node.id@, LoadMode::Full)]);
    if let Some(deps) = &node.depends {
        push_node_plans(&mut out, file, deps, "dep:", LoadMode::Operational);
    } else {
        assert(plan_views(out@) + Seq::<PlanView>::empty() =~= plan_views(out@));
    }
    out
}

/// The ids that the explicit context of `node` includes in summary: those
/// the node reaches through `depends` and that the file has, other than the
/// node itself and its `load_nodes`.
pub open spec fn summary_deps(node: Node, ctx: AgentContext, file: AgmFile, graph: DepGraph) -> Set<Seq<char>> {
    Set::new(
        |x: Seq<char>|
            graph.reaches(Direction::Dependencies, node.id@, x) && x != node.id@ && in_file(file, x) && !(
            match ctx.load_nodes {
                Some(v) => string_views(v@).contains(x),
                None => false,
            }),
    )
}

/// The plans before the summary dependencies: hint, target node, load nodes.
pub open spec fn explicit_head(node: Node, ctx: AgentContext, file: AgmFile) -> Seq<PlanView> {
    (match ctx.system_hint {
        Some(h) => seq![PlanView::SystemHint(h@)],
        None => Seq::empty(),
    }) + seq![PlanView::Node("node:"@ + node.id@, node.id@, LoadMode::Full)] + match ctx.load_nodes {
        Some(v) => node_plans(file, string_views(v@), "load_node:"@, LoadMode::Operational),
        None => Seq::empty(),
    }
}

/// The plans after the summary dependencies: files, then memory topics.
pub open spec fn explicit_tail(ctx: AgentContext, memory: MemoryRuntime) -> Seq<PlanView> {
    (match ctx.load_files {
        Some(v) => v@.map_values(|f: LoadFile| PlanView::File(f.path@, f.range)),
        None => Seq::empty(),
    }) + match ctx.load_memory {
        Some(t) => memory_sections_spec(memory, string_views(t@)).map_values(
            |tc: (Seq<char>, Seq<char>)| PlanView::Memory(tc.0, tc.1),
        ),
        None => Seq::empty(),
    }
}

impl FileRange {
    /// A copy of the range.
    pub fn copy(&self) -> (r: FileRange)
        ensures
            r == *self,
    {
        match self {
            FileRange::Full => FileRange::Full,
            FileRange::Lines(a, b) => FileRange::Lines(*a, *b),
            FileRange::Function(n) => FileRange::Function(n.clone()),
        }
    }
}

/// Plan of the explicit context of a node: the system hint, the node in
/// full, its `load_nodes` that the file has (operational), the other nodes
/// it transitively depends on (summary, in ascending id order), its
/// `load_files`, and its `load_memory` topics that have entries.
pub fn plan_explicit_context(
    node: &Node,
    ctx: &AgentContext,
    file: &AgmFile,
    graph: &DepGraph,
    memory: &MemoryRuntime,
) -> (r: Vec<SectionPlan>)
    requires
        graph.wf(),
        memory.wf(),
    ensures
        ({
            let head = explicit_head(*node, *ctx, *file);
            let tail = explicit_tail(*ctx, *memory);
            let v = plan_views(r@);
            let s = summary_deps(*node, *ctx, *file, *graph);
            &&& head.len() + tail.len() <= v.len()
            &&& v.take(head.len() as int) == head
            &&& v.skip(v.len() - tail.len()) == tail
            &&& forall|i: int| head.len() <= i < v.len() - tail.len() ==> is_summary_dep(#[trigger] v[i], s)
            &&& forall|x: Seq<char>|
                s.contains(x) ==> exists|i: int|
                    head.len() <= i < v.len() - tail.len() && #[trigger] v[i] == summary_plan(x)
            &&& forall|i: int, j: int|
                head.len() <= i < j < v.len() - tail.len() ==> lex_lt(plan_id(#[trigger] v[i]), plan_id(#[trigger] v[j]))
        }),
{
    let mut out: Vec<SectionPlan> = Vec::new();
    if let Some(h) = &ctx.system_hint {
        out.push(SectionPlan::SystemHint(h.clone()));
    }
    out.push(SectionPlan::Node { name: concat2("node:", node.id.as_str()), id: node.id.clone(), mode: LoadMode::Full });
    if let Some(ln) = &ctx.load_nodes {
        push_node_plans(&mut out, file, ln, "load_node:", LoadMode::Operational);
    }
    let ghost head = explicit_head(*node, *ctx, *file);
    assert(plan_views(out@) =~= head);
    // transitive dependencies, sorted
    let trans = graph.reachable(Direction::Dependencies, node.id.as_str());
    let mut sorted: KeyedMap<bool> = KeyedMap::new();
    let ghost s = summary_deps(*node, *ctx, *file, *graph);
    let mut i: usize = 0;
    while i < trans.len()
        invariant
            i <= trans@.len(),
            sorted.wf(),
            string_views(trans@).no_duplicates(),
            forall|x: Seq<char>| #[trigger] string_views(trans@).contains(x) <==> graph.reaches(Direction::Dependencies, node.id@, x),
            forall|x: Seq<char>| #[trigger] sorted@.dom().contains(x) ==> s.contains(x),
            forall|j: int| 0 <= j < i && s.contains(#[trigger] string_views(trans@)[j]) ==> sorted@.dom().contains(string_views(trans@)[j]),
            s == summary_deps(*node, *ctx, *file, *graph),
        decreases trans@.len() - i,
    {
        let t = &trans[i];
        let keep = !str_eq(t.as_str(), node.id.as_str()) && file_has_node(file, t.as_str()) && match &ctx.load_nodes {
            Some(v) => !contains_string(v, t.as_str()),
            None => true,
        };
        proof {
            assert(string_views(trans@)[i as int] == t@);
            assert(string_views(trans@).contains(t@));
        }
        if keep {
            sorted.insert(t.clone(), true);
        }
        i += 1;
    }
    proof {
        assert forall|x: Seq<char>| s.contains(x) implies #[trigger] sorted@.dom().contains(x) by {
            assert(string_views(trans@).contains(x));
            let j = string_views(trans@).index_of(x);
        }
        sorted.lemma_wf_unique();
        sorted.lemma_dom_len();
    }
    let ghost keys = sorted.keys();
    let n = sorted.len();
    let mut k: usize = 0;
    while k < n
        invariant
            k <= n,
            sorted.wf(),
            keys == sorted.keys(),
            n == keys.len(),
            plan_views(out@).len() == head.len() + k,
            plan_views(out@).take(head.len() as int) == head,
            forall|j: int| 0 <= j < k ==> #[trigger] plan_views(out@)[head.len() + j] == summary_plan(keys[j]),
        decreases n - k,
    {
        let key = sorted.key_at(k);
        let p = SectionPlan::Node { name: concat2("dep:", key.as_str()), id: key.clone(), mode: LoadMode::Summary };
        let ghost before = plan_views(out@);
        out.push(p);
        proof {
            assert(plan_views(out@) =~= before.push(p@));
            assert(plan_views(out@).take(head.len() as int) =~= before.take(head.len() as int));
        }
        k += 1;
    }
    let ghost mid = plan_views(out@);
    if let Some(files) = &ctx.load_files {
        let mut f: usize = 0;
        while f < files.len()
            invariant
                f <= files@.len(),
                plan_views(out@) == mid + files@.take(f as int).map_values(|lf: LoadFile| PlanView::File(lf.path@, lf.range)),
            decreases files@.len() - f,
        {
            let p = SectionPlan::File { path: files[f].path.clone(), range: files[f].range.copy() };
            let ghost before = plan_views(out@);
            out.push(p);
            proof {
                assert(files@.take(f + 1) =~= files@.take(f as int).push(files@[f as int]));
                assert(plan_views(out@) =~= before.push(p@));
                assert(plan_views(out@) =~= mid + files@.take(f + 1).map_values(|lf: LoadFile| PlanView::File(lf.path@, lf.range)));
            }
            f += 1;
        }
        assert(files@.take(f as int) =~= files@);
    } else {
        assert(plan_views(out@) =~= mid + Seq::<PlanView>::empty());
    }
    let ghost mid2 = plan_views(out@);
    if let Some(topics) = &ctx.load_memory {
        let secs = load_memory_topics(topics, memory);
        let ghost ms = memory_sections_spec(*memory, string_views(topics@));
        let mut m: usize = 0;
        while m < secs.len()
            invariant
                m <= secs@.len(),
                secs@.len() == ms.len(),
                forall|i: int| 0 <= i < secs@.len() ==> is_memory_section(#[trigger] secs@[i], ms[i].0, ms[i].1),
                plan_views(out@) == mid2 + ms.take(m as int).map_values(|tc: (Seq<char>, Seq<char>)| PlanView::Memory(tc.0, tc.1)),
            decreases secs@.len() - m,
        {
            let topic = match &secs[m].source {
                ContextSource::Memory { topic } => topic.clone(),
                _ => String::new(),
            };
            proof {
                assert(is_memory_section(secs@[m as int], ms[m as int].0, ms[m as int].1));
            }
            let p = SectionPlan::Memory { topic, content: secs[m].content.clone() };
            let ghost before = plan_views(out@);
            out.push(p);
            proof {
                assert(ms.take(m + 1) =~= ms.take(m as int).push(ms[m as int]));
                assert(plan_views(out@) =~= before.push(p@));
                assert(plan_views(out@) =~= mid2 + ms.take(m + 1).map_values(|tc: (Seq<char>, Seq<char>)| PlanView::Memory(tc.0, tc.1)));
            }
            m += 1;
        }
        assert(ms.take(m as int) =~= ms);
    } else {
        assert(plan_views(out@) =~= mid2 + Seq::<PlanView>::empty());
    }
    proof {
        let tail = explicit_tail(*ctx, *memory);
        assert(plan_views(out@) =~= mid + tail);
        assert forall|x: Seq<char>| #[trigger] keys.contains(x) <==> s.contains(x) by {
            assert(sorted@.dom().contains(x) == keys.to_set().contains(x));
            if keys.contains(x) {
                assert(keys.to_set().contains(x));
            }
            if s.contains(x) {
                assert(keys.to_set().contains(x));
            }
        }
        lemma_explicit_plan(plan_views(out@), mid, head, tail, keys, s);
    }
    out
}

proof fn lemma_explicit_plan(
    v: Seq<PlanView>,
    mid: Seq<PlanView>,
    head: Seq<PlanView>,
    tail: Seq<PlanView>,
    keys: Seq<Seq<char>>,
    s: Set<Seq<char>>,
)
    requires
        mid.len() == head.len() + keys.len(),
        mid.take(head.len() as int) == head,
        forall|j: int| 0 <= j < keys.len() ==> #[trigger] mid[head.len() + j] == summary_plan(keys[j]),
        v == mid + tail,
        forall|x: Seq<char>| #[trigger] keys.contains(x) <==> s.contains(x),
        forall|i: int, j: int| 0 <= i < j < keys.len() ==> lex_lt(#[trigger] keys[i], #[trigger] keys[j]),
    ensures
        head.len() + tail.len() <= v.len(),
        v.take(head.len() as int) == head,
        v.skip(v.len() - tail.len()) == tail,
        forall|i: int| head.len() <= i < v.len() - tail.len() ==> is_summary_dep(#[trigger] v[i], s),
        forall|x: Seq<char>|
            s.contains(x) ==> exists|i: int| head.len() <= i < v.len() - tail.len() && #[trigger] v[i] == summary_plan(x),
        forall|i: int, j: int|
            head.len() <= i < j < v.len() - tail.len() ==> lex_lt(plan_id(#[trigger] v[i]), plan_id(#[trigger] v[j])),
{
    assert(v.skip(v.len() - tail.len()) =~= tail);
    assert(v.take(head.len() as int) =~= head);
    assert forall|i: int| head.len() <= i < v.len() - tail.len() implies is_summary_dep(#[trigger] v[i], s) by {
        let j = i - head.len();
        assert(v[i] == mid[i]);
        assert(mid[head.len() + j] == summary_plan(keys[j]));
        assert(keys.contains(keys[j]));
    }
    assert forall|x: Seq<char>| s.contains(x) implies exists|i: int|
        head.len() <= i < v.len() - tail.len() && #[trigger] v[i] == summary_plan(x) by {
        assert(keys.contains(x));
        let j = keys.index_of(x);
        assert(mid[head.len() + j] == summary_plan(keys[j]));
        assert(v[head.len() + j] == mid[head.len() + j]);
    }
    assert forall|i: int, j: int| head.len() <= i < j < v.len() - tail.len() implies lex_lt(
        plan_id(#[trigger] v[i]),
        plan_id(#[trigger] v[j]),
    ) by {
        let a = i - head.len();
        let b = j - head.len();
        assert(v[i] == mid[head.len() + a]);
        assert(v[j] == mid[head.len() + b]);
        assert(lex_lt(keys[a], keys[b]));
    }
}

/// Whether `v` holds a string equal to `s`.
pub fn contains_string(v: &Vec<String>, s: &str) -> (r: bool)
    ensures
        r == string_views(v@).contains(s@),
{
    let mut i: usize = 0;
    while i < v.len()
        invariant
            i <= v@.len(),
            forall|j: int| 0 <= j < i ==> #[trigger] string_views(v@)[j] != s@,
        decreases v@.len() - i,
    {
        if str_eq(v[i].as_str(), s) {
            assert(string_views(v@)[i as int] == s@);
            return true;
        }
        i += 1;
    }
    false
}

/// `sec` is the section for plan `p`, with `fetched` the text rendered or
/// read for it (used by node and file plans only).
pub open spec fn section_for(p: PlanView, fetched: Seq<char>, sec: ContextSection) -> bool {
    match p {
        PlanView::SystemHint(h) => sec.name@ == "system_hint"@ && sec.content@ == h && sec.source
            is SystemHint,
        PlanView::Node(name, id, mode) => sec.name@ == name && sec.content@ == strip_header_spec(fetched)
            && (sec.source matches ContextSource::Node { id: i, mode: m } && i@ == id && m == mode),
        PlanView::File(path, _) => sec.name@ == "file:"@ + path && sec.content@ == fetched && (
        sec.source matches ContextSource::File { path: q } && q@ == path),
        PlanView::Memory(topic, content) => is_memory_section(sec, topic, content),
    }
}

/// The sections of a plan: `fetched[i]` is the rendered markdown of the
/// `i`-th plan when it is a node (its header line is stripped), the text of
/// the file when it is a file, and is not read otherwise.
pub fn fill_sections(plan: &Vec<SectionPlan>, fetched: &Vec<String>) -> (r: Vec<ContextSection>)
    requires
        fetched@.len() == plan@.len(),
    ensures
        r@.len() == plan@.len(),
        forall|i: int| 0 <= i < r@.len() ==> section_for(plan@[i]@, fetched@[i]@, #[trigger] r@[i]),
{
    let mut out: Vec<ContextSection> = Vec::new();
    let mut i: usize = 0;
    while i < plan.len()
        invariant
            i <= plan@.len(),
            fetched@.len() == plan@.len(),
            out@.len() == i,
            forall|j: int| 0 <= j < i ==> section_for(plan@[j]@, fetched@[j]@, #[trigger] out@[j]),
        decreases plan@.len() - i,
    {
        let sec = match &plan[i] {
            SectionPlan::SystemHint(h) => ContextSection {
                name: owned("system_hint"),
                content: h.clone(),
                source: ContextSource::SystemHint,
            },
            SectionPlan::Node { name, id, mode } => ContextSection {
                name: name.clone(),
                content: strip_markdown_header(fetched[i].clone()),
                source: ContextSource::Node { id: id.clone(), mode: *mode },
            },
            SectionPlan::File { path, .. } => ContextSection {
                name: concat2("file:", path.as_str()),
                content: fetched[i].clone(),
                source: ContextSource::File { path: path.clone() },
            },
            SectionPlan::Memory { topic, content } => ContextSection {
                name: concat2("memory:", topic.as_str()),
                content: content.clone(),
                source: ContextSource::Memory { topic: topic.clone() },
            },
        };
        out.push(sec);
        i += 1;
    }
    out
}

/// The sections kept for a budget: all of them without a budget.
pub open spec fn budgeted(sections: Seq<ContextSection>, max_tokens: Option<u32>) -> Seq<ContextSection> {
    match max_tokens {
        Some(b) => sections.take(kept_sections(sections, b as nat, sections.len()) as int),
        None => sections,
    }
}

/// Finishes a context: truncates the sections to `max_tokens` when set,
/// assembles the prompt and estimates its tokens.
pub fn finish_context(sections: Vec<ContextSection>, max_tokens: Option<u32>) -> (r: BuiltContext)
    requires
        total_bytes(sections@) <= usize::MAX,
    ensures
        r.sections@ == budgeted(sections@, max_tokens),
        r.prompt@ == prompt_spec(r.sections@),
        r.token_estimate == (byte_len(r.prompt@) as usize) / 4,
{
    let sections = match max_tokens {
        Some(b) => truncate_to_budget(sections, b as usize),
        None => sections,
    };
    let prompt = assemble_prompt(&sections);
    let token_estimate = estimate_tokens(prompt.as_str());
    BuiltContext { prompt, token_estimate, sections }
}

} // verus!
