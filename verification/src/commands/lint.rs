//! `lint` command: quality heuristics over the nodes of a file.
//!
//! Three informational checks, reported in this order: summaries longer
//! than 100 bytes (up to 200, where validation takes over), summaries that
//! repeat an earlier node's, and nodes with more than 15 populated
//! optional fields.

use vstd::prelude::*;

use crate::keyed::str_eq;
use crate::runtime::context::byte_len;
use crate::runtime::duration::{decimal, decimal_string};
use crate::text::{owned, push_str};

verus! {

/// Code of a lint diagnostic.
#[derive(Clone, Copy, Debug, PartialEq, Eq, Structural)]
pub enum LintCode {
    /// Long summary.
    L001,
    /// Summary shared with an earlier node.
    L002,
    /// Too many populated fields.
    L003,
}

impl LintCode {
    /// The code as written in reports.
    pub open spec fn spec_name(self) -> Seq<char> {
        match self {
            LintCode::L001 => "L001"@,
            LintCode::L002 => "L002"@,
            LintCode::L003 => "L003"@,
        }
    }

    /// The code as written in reports.
    pub fn as_str(&self) -> (r: &'static str)
        ensures
            r@ == self.spec_name(),
    {
        match self {
            LintCode::L001 => "L001",
            LintCode::L002 => "L002",
            LintCode::L003 => "L003",
        }
    }
}

/// Which of the optional fields that the format defines a node has set.
#[derive(Clone, Copy, Debug, Default)]
pub struct PopulatedFields {
    /// `priority` is set.
    pub priority: bool,
    /// `stability` is set.
    pub stability: bool,
    /// `confidence` is set.
    pub confidence: bool,
    /// `status` is set.
    pub status: bool,
    /// `depends` is set.
    pub depends: bool,
    /// `related_to` is set.
    pub related_to: bool,
    /// `replaces` is set.
    pub replaces: bool,
    /// `conflicts` is set.
    pub conflicts: bool,
    /// `see_also` is set.
    pub see_also: bool,
    /// `items` is set.
    pub items: bool,
    /// `steps` is set.
    pub steps: bool,
    /// `fields` is set.
    pub fields: bool,
    /// `input` is set.
    pub input: bool,
    /// `output` is set.
    pub output: bool,
    /// `detail` is set.
    pub detail: bool,
    /// `rationale` is set.
    pub rationale: bool,
    /// `tradeoffs` is set.
    pub tradeoffs: bool,
    /// `resolution` is set.
    pub resolution: bool,
    /// `examples` is set.
    pub examples: bool,
    /// `notes` is set.
    pub notes: bool,
    /// `code` is set.
    pub code: bool,
    /// `code_blocks` is set.
    pub code_blocks: bool,
    /// `verify` is set.
    pub verify: bool,
    /// `agent_context` is set.
    pub agent_context: bool,
    /// `target` is set.
    pub target: bool,
    /// `execution_status` is set.
    pub execution_status: bool,
    /// `executed_by` is set.
    pub executed_by: bool,
    /// `executed_at` is set.
    pub executed_at: bool,
    /// `execution_log` is set.
    pub execution_log: bool,
    /// `retry_count` is set.
    pub retry_count: bool,
    /// `parallel_groups` is set.
    pub parallel_groups: bool,
    /// `memory` is set.
    pub memory: bool,
    /// `scope` is set.
    pub scope: bool,
    /// `applies_when` is set.
    pub applies_when: bool,
    /// `valid_from` is set.
    pub valid_from: bool,
    /// `valid_until` is set.
    pub valid_until: bool,
    /// `tags` is set.
    pub tags: bool,
    /// `aliases` is set.
    pub aliases: bool,
    /// `keywords` is set.
    pub keywords: bool,
}

/// The optional-field flags of a node, in the order the format lists them.
pub open spec fn field_flags(f: PopulatedFields) -> Seq<bool> {
    seq![f.priority, f.stability, f.confidence, f.status, f.depends, f.related_to, f.replaces, f.conflicts, f.see_also, f.items, f.steps, f.fields, f.input, f.output, f.detail, f.rationale, f.tradeoffs, f.resolution, f.examples, f.notes, f.code, f.code_blocks, f.verify, f.agent_context, f.target, f.execution_status, f.executed_by, f.executed_at, f.execution_log, f.retry_count, f.parallel_groups, f.memory, f.scope, f.applies_when, f.valid_from, f.valid_until, f.tags, f.aliases, f.keywords]
}

/// Number of `true` entries.
pub open spec fn count_true(s: Seq<bool>) -> nat
    decreases s.len(),
{
    if s.len() == 0 {
        0
    } else {
        count_true(s.drop_last()) + if s.last() {
            1nat
        } else {
            0nat
        }
    }
}

/// Number of optional fields set.
pub open spec fn set_count(f: PopulatedFields) -> nat {
    count_true(field_flags(f))
}

/// Number of optional fields set.
pub fn count_set_fields(f: &PopulatedFields) -> (r: usize)
    ensures
        r == set_count(*f),
        r <= 39,
{
    let flags: Vec<bool> = vec![f.priority, f.stability, f.confidence, f.status, f.depends, f.related_to, f.replaces, f.conflicts, f.see_also, f.items, f.steps, f.fields, f.input, f.output, f.detail, f.rationale, f.tradeoffs, f.resolution, f.examples, f.notes, f.code, f.code_blocks, f.verify, f.agent_context, f.target, f.execution_status, f.executed_by, f.executed_at, f.execution_log, f.retry_count, f.parallel_groups, f.memory, f.scope, f.applies_when, f.valid_from, f.valid_until, f.tags, f.aliases, f.keywords];
    assert(flags@ =~= field_flags(*f));
    let mut c: usize = 0;
    let mut i: usize = 0;
    while i < flags.len()
        invariant
            i <= flags.len(),
            flags.len() == 39,
            c <= i,
            c == count_true(flags@.take(i as int)),
        decreases flags.len() - i,
    {
        assert(flags@.take(i + 1).drop_last() =~= flags@.take(i as int));
        if flags[i] {
            c = c + 1;
        }
        i = i + 1;
    }
    assert(flags@.take(39) =~= flags@);
    c
}

/// What the lint checks read of a node.
pub struct LintNode {
    /// Node id.
    pub id: String,
    /// Node summary.
    pub summary: String,
    /// Line on which the node starts.
    pub start_line: usize,
    /// The optional fields the node has set.
    pub optional_fields: PopulatedFields,
    /// Number of fields of the node that the format does not define.
    pub extra_fields: usize,
}

/// An informational lint diagnostic.
pub struct LintDiagnostic {
    /// The check that fired.
    pub code: LintCode,
    /// What it says.
    pub message: String,
    /// File name.
    pub file: String,
    /// Line of the node.
    pub line: usize,
    /// The node.
    pub node_id: String,
}

/// A diagnostic as plain values: code, message, file, line, node id.
pub type DiagView = (LintCode, Seq<char>, Seq<char>, usize, Seq<char>);

/// The view of a diagnostic.
pub open spec fn diag_view(d: LintDiagnostic) -> DiagView {
    (d.code, d.message@, d.file@, d.line, d.node_id@)
}

/// Views of diagnostics.
pub open spec fn diag_views(v: Seq<LintDiagnostic>) -> Seq<DiagView> {
    v.map_values(|d: LintDiagnostic| diag_view(d))
}

/// Populated fields of a node: its set optional-field flags plus its
/// extra fields.
pub open spec fn populated_count(n: LintNode) -> int {
    set_count(n.optional_fields) + n.extra_fields
}

/// Length of a node's summary in bytes.
pub open spec fn summary_bytes(n: LintNode) -> usize {
    byte_len(n.summary@) as usize
}

/// The diagnostics of the long-summary check.
pub open spec fn long_summary_diags(ns: Seq<LintNode>, file: Seq<char>) -> Seq<DiagView>
    decreases ns.len(),
{
    if ns.len() == 0 {
        Seq::empty()
    } else {
        let n = ns.last();
        long_summary_diags(ns.drop_last(), file) + if 100 < summary_bytes(n) <= 200 {
            seq![
                (
                    LintCode::L001,
                    "Summary of node `"@ + n.id@ + "` is "@ + decimal(summary_bytes(n) as nat)
                        + " chars; consider shortening (> 100 chars)"@,
                    file,
                    n.start_line,
                    n.id@,
                ),
            ]
        } else {
            Seq::empty()
        }
    }
}

/// Position of the first node of `ns` whose summary is `s`.
pub open spec fn first_with_summary(ns: Seq<LintNode>, s: Seq<char>) -> Option<int>
    decreases ns.len(),
{
    if ns.len() == 0 {
        None
    } else {
        match first_with_summary(ns.drop_last(), s) {
            Some(j) => Some(j),
            None => if ns.last().summary@ == s {
                Some(ns.len() - 1)
            } else {
                None
            },
        }
    }
}

/// The diagnostics of the repeated-summary check: a node whose summary an
/// earlier node has is reported against the first such node.
pub open spec fn repeated_summary_diags(ns: Seq<LintNode>, file: Seq<char>) -> Seq<DiagView>
    decreases ns.len(),
{
    if ns.len() == 0 {
        Seq::empty()
    } else {
        let n = ns.last();
        repeated_summary_diags(ns.drop_last(), file) + match first_with_summary(ns.drop_last(), n.summary@) {
            Some(j) => seq![
                (
                    LintCode::L002,
                    "Nodes `"@ + ns[j].id@ + "` and `"@ + n.id@ + "` have identical summaries"@,
                    file,
                    n.start_line,
                    n.id@,
                ),
            ],
            None => Seq::empty(),
        }
    }
}

/// The diagnostics of the field-count check.
pub open spec fn crowded_node_diags(ns: Seq<LintNode>, file: Seq<char>) -> Seq<DiagView>
    decreases ns.len(),
{
    if ns.len() == 0 {
        Seq::empty()
    } else {
        let n = ns.last();
        crowded_node_diags(ns.drop_last(), file) + if populated_count(n) > 15 {
            seq![
                (
                    LintCode::L003,
                    "Node `"@ + n.id@ + "` has "@ + decimal(populated_count(n) as nat)
                        + " populated fields; consider splitting into smaller nodes"@,
                    file,
                    n.start_line,
                    n.id@,
                ),
            ]
        } else {
            Seq::empty()
        }
    }
}

/// The field count of a node fits in a `usize`.
pub open spec fn count_fits(n: LintNode) -> bool {
    n.extra_fields <= usize::MAX - 39
}

/// Number of populated optional fields of a node, extra fields included.
pub fn count_populated_fields(node: &LintNode) -> (r: usize)
    requires
        count_fits(*node),
    ensures
        r == populated_count(*node),
{
    let count = count_set_fields(&node.optional_fields);
    count + node.extra_fields
}

fn diag(code: LintCode, message: String, file: &str, n: &LintNode) -> (d: LintDiagnostic)
    ensures
        diag_view(d) == (code, message@, file@, n.start_line, n.id@),
{
    LintDiagnostic { code, message, file: owned(file), line: n.start_line, node_id: n.id.clone() }
}

/// Position of the first node before position `i` whose summary is that
/// of node `i`.
fn first_same_summary(nodes: &Vec<LintNode>, i: usize) -> (r: Option<usize>)
    requires
        i < nodes@.len(),
    ensures
        match r {
            Some(j) => j < i && first_with_summary(nodes@.take(i as int), nodes@[i as int].summary@) == Some(j as int),
            None => first_with_summary(nodes@.take(i as int), nodes@[i as int].summary@) is None,
        },
{
    let ghost ns = nodes@;
    let ghost s = nodes@[i as int].summary@;
    let mut j: usize = 0;
    while j < i
        invariant
            ns == nodes@,
            j <= i < ns.len(),
            s == ns[i as int].summary@,
            first_with_summary(ns.take(j as int), s) is None,
        decreases i - j,
    {
        assert(ns.take(j + 1).drop_last() =~= ns.take(j as int));
        if str_eq(nodes[j].summary.as_str(), nodes[i].summary.as_str()) {
            assert(first_with_summary(ns.take(j + 1), s) == Some(j as int));
            proof {
                lemma_first_with_summary_prefix(ns.take(i as int), s, j + 1);
                assert(ns.take(i as int).take(j + 1) =~= ns.take(j + 1));
            }
            return Some(j);
        }
        j += 1;
    }
    assert(ns.take(j as int) =~= ns.take(i as int));
    None
}

/// The quality diagnostics of a file's nodes: the long-summary ones, then
/// the repeated-summary ones, then the field-count ones, each in node
/// order.
pub fn lint_quality_checks(nodes: &Vec<LintNode>, file_name: &str) -> (r: Vec<LintDiagnostic>)
    requires
        forall|k: int| 0 <= k < nodes@.len() ==> count_fits(#[trigger] nodes@[k]),
    ensures
        diag_views(r@) == long_summary_diags(nodes@, file_name@) + repeated_summary_diags(nodes@, file_name@)
            + crowded_node_diags(nodes@, file_name@),
{
    let ghost ns = nodes@;
    let mut out: Vec<LintDiagnostic> = Vec::new();
    // long summaries
    let mut i: usize = 0;
    while i < nodes.len()
        invariant
            ns == nodes@,
            i <= ns.len(),
            diag_views(out@) == long_summary_diags(ns.take(i as int), file_name@),
        decreases ns.len() - i,
    {
        assert(ns.take(i + 1).drop_last() =~= ns.take(i as int));
        let n = &nodes[i];
        let len = n.summary.as_str().len();
        if 100 < len && len <= 200 {
            let mut m = owned("Summary of node `");
            push_str(&mut m, n.id.as_str());
            push_str(&mut m, "` is ");
            push_str(&mut m, decimal_string(len as u64).as_str());
            push_str(&mut m, " chars; consider shortening (> 100 chars)");
            let d = diag(LintCode::L001, m, file_name, n);
            out.push(d);
            assert(diag_views(out@) =~= diag_views(out@.drop_last()).push(diag_view(d)));
        }
        i += 1;
    }
    assert(ns.take(i as int) =~= ns);
    let ghost part1 = diag_views(out@);
    let base = out.len();
    // repeated summaries
    let mut i: usize = 0;
    while i < nodes.len()
        invariant
            ns == nodes@,
            i <= ns.len(),
            base == part1.len(),
            diag_views(out@) == part1 + repeated_summary_diags(ns.take(i as int), file_name@),
        decreases ns.len() - i,
    {
        assert(ns.take(i + 1).drop_last() =~= ns.take(i as int));
        let n = &nodes[i];
        let found = first_same_summary(nodes, i);
        match found {
            Some(j) => {
                let mut m = owned("Nodes `");
                push_str(&mut m, nodes[j].id.as_str());
                push_str(&mut m, "` and `");
                push_str(&mut m, n.id.as_str());
                push_str(&mut m, "` have identical summaries");
                let d = diag(LintCode::L002, m, file_name, n);
                let ghost before = diag_views(out@);
                out.push(d);
                proof {
                    assert(ns.take(i as int)[j as int] == ns[j as int]);
                    assert(diag_views(out@) =~= before.push(diag_view(d)));
                    assert(repeated_summary_diags(ns.take(i + 1), file_name@) == repeated_summary_diags(
                        ns.take(i as int),
                        file_name@,
                    ) + seq![diag_view(d)]);
                    assert(diag_views(out@) =~= part1 + repeated_summary_diags(ns.take(i + 1), file_name@));
                }
            },
            None => {
                assert(repeated_summary_diags(ns.take(i + 1), file_name@) =~= repeated_summary_diags(
                    ns.take(i as int),
                    file_name@,
                ));
            },
        }
        i += 1;
    }
    assert(ns.take(i as int) =~= ns);
    let ghost part2 = diag_views(out@);
    // crowded nodes
    let mut i: usize = 0;
    while i < nodes.len()
        invariant
            ns == nodes@,
            i <= ns.len(),
            forall|k: int| 0 <= k < ns.len() ==> count_fits(#[trigger] ns[k]),
            diag_views(out@) == part2 + crowded_node_diags(ns.take(i as int), file_name@),
        decreases ns.len() - i,
    {
        assert(ns.take(i + 1).drop_last() =~= ns.take(i as int));
        let n = &nodes[i];
        let count = count_populated_fields(n);
        if count > 15 {
            let mut m = owned("Node `");
            push_str(&mut m, n.id.as_str());
            push_str(&mut m, "` has ");
            push_str(&mut m, decimal_string(count as u64).as_str());
            push_str(&mut m, " populated fields; consider splitting into smaller nodes");
            let d = diag(LintCode::L003, m, file_name, n);
            let ghost before = diag_views(out@);
            out.push(d);
            proof {
                assert(diag_views(out@) =~= before.push(diag_view(d)));
                assert(crowded_node_diags(ns.take(i + 1), file_name@) == crowded_node_diags(ns.take(i as int), file_name@)
                    + seq![diag_view(d)]);
                assert(diag_views(out@) =~= part2 + crowded_node_diags(ns.take(i + 1), file_name@));
            }
        } else {
            assert(crowded_node_diags(ns.take(i + 1), file_name@) =~= crowded_node_diags(ns.take(i as int), file_name@));
        }
        i += 1;
    }
    assert(ns.take(i as int) =~= ns);
    out
}

proof fn lemma_first_with_summary_prefix(ns: Seq<LintNode>, s: Seq<char>, k: int)
    requires
        0 <= k <= ns.len(),
        first_with_summary(ns.take(k), s) is Some,
    ensures
        first_with_summary(ns, s) == first_with_summary(ns.take(k), s),
    decreases ns.len() - k,
{
    if k < ns.len() {
        assert(ns.take(k + 1).drop_last() =~= ns.take(k));
        lemma_first_with_summary_prefix(ns, s, k + 1);
    } else {
        assert(ns.take(k) =~= ns);
    }
}

} // verus!
