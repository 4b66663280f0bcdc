//! Bench report types.

use vstd::prelude::*;

use crate::runtime::duration::{decimal, decimal_string};
use crate::text::{join, join_strings, owned, pad_right, push_padded, push_str, string_views};

verus! {

/// How a single bench case was judged.
#[derive(Debug, Clone, Copy, PartialEq, Eq, Structural)]
pub enum ComplianceBucket {
    /// Passed all checks without normalization.
    Pass,
    /// Failed raw checks but passed after `normalize`.
    NormalizeFixable,
    /// Matches the schema but fails `agm validate`.
    SchemaOnly,
    /// Passes `agm validate` but does not match the schema.
    ValidateOnly,
    /// Failed all checks.
    Fail,
    /// Provider or parse error: the reply could not be judged.
    Error,
}

impl ComplianceBucket {
    /// Outcomes that count as compliant: `Pass` and `NormalizeFixable`.
    pub open spec fn spec_is_compliant(&self) -> bool {
        *self == ComplianceBucket::Pass || *self == ComplianceBucket::NormalizeFixable
    }

    /// Whether the outcome counts as compliant (`Pass` or `NormalizeFixable`).
    pub fn is_compliant(&self) -> (r: bool)
        ensures
            r == self.spec_is_compliant(),
    {
        match self {
            ComplianceBucket::Pass | ComplianceBucket::NormalizeFixable => true,
            _ => false,
        }
    }

    /// The label of the outcome.
    pub open spec fn spec_label(&self) -> Seq<char> {
        match self {
            ComplianceBucket::Pass => "PASS"@,
            ComplianceBucket::NormalizeFixable => "NORM_FIXABLE"@,
            ComplianceBucket::SchemaOnly => "SCHEMA_ONLY"@,
            ComplianceBucket::ValidateOnly => "VALIDATE_ONLY"@,
            ComplianceBucket::Fail => "FAIL"@,
            ComplianceBucket::Error => "ERROR"@,
        }
    }

    /// The label of the outcome, as shown in reports.
    pub fn to_string(&self) -> (r: String)
        ensures
            r@ == self.spec_label(),
    {
        let s = match self {
            ComplianceBucket::Pass => "PASS",
            ComplianceBucket::NormalizeFixable => "NORM_FIXABLE",
            ComplianceBucket::SchemaOnly => "SCHEMA_ONLY",
            ComplianceBucket::ValidateOnly => "VALIDATE_ONLY",
            ComplianceBucket::Fail => "FAIL",
            ComplianceBucket::Error => "ERROR",
        };
        crate::text::owned(s)
    }
}

/// Result of one bench case.
pub struct CaseResult {
    /// Case identifier, such as `ticket/a`.
    pub case_id: String,
    /// How the case was judged.
    pub bucket: ComplianceBucket,
    /// Input tokens consumed.
    pub tokens_in: u32,
    /// Output tokens produced.
    pub tokens_out: u32,
    /// Round-trip latency in milliseconds.
    pub latency_ms: u64,
    /// Notes on normalization or validation.
    pub notes: Vec<String>,
}

/// Output format of the bench report.
#[derive(Debug, Clone, Copy, PartialEq, Eq, Structural)]
pub enum ReportFormat {
    /// Plain text.
    Text,
    /// Markdown table.
    Markdown,
    /// JSON.
    Json,
}

/// The note lines of a result in the text report.
pub open spec fn note_lines(notes: Seq<Seq<char>>) -> Seq<char>
    decreases notes.len(),
{
    if notes.len() == 0 {
        Seq::empty()
    } else {
        note_lines(notes.drop_last()) + "    note: "@ + notes.last() + "\n"@
    }
}

/// The lines of one result in the text report: id, bucket and usage, then
/// its notes.
pub open spec fn case_text_spec(r: CaseResult) -> Seq<char> {
    "  "@ + pad_right(r.case_id@, 24) + "  "@ + pad_right(r.bucket.spec_label(), 14) + "  ("@ + decimal(
        r.tokens_in as nat,
    ) + " in, "@ + decimal(r.tokens_out as nat) + " out, "@ + decimal(r.latency_ms as nat) + " ms)\n"@ + note_lines(
        string_views(r.notes@),
    )
}

/// The lines of one result in the text report.
pub fn case_text(r: &CaseResult) -> (s: String)
    ensures
        s@ == case_text_spec(*r),
{
    let mut out = owned("  ");
    push_padded(&mut out, r.case_id.as_str(), 24);
    push_str(&mut out, "  ");
    let label = r.bucket.to_string();
    push_padded(&mut out, label.as_str(), 14);
    push_str(&mut out, "  (");
    push_str(&mut out, decimal_string(r.tokens_in as u64).as_str());
    push_str(&mut out, " in, ");
    push_str(&mut out, decimal_string(r.tokens_out as u64).as_str());
    push_str(&mut out, " out, ");
    push_str(&mut out, decimal_string(r.latency_ms).as_str());
    push_str(&mut out, " ms)\n");
    let ghost head = out@;
    let ghost nv = string_views(r.notes@);
    let mut i: usize = 0;
    while i < r.notes.len()
        invariant
            i <= nv.len(),
            nv == string_views(r.notes@),
            out@ == head + note_lines(nv.take(i as int)),
        decreases nv.len() - i,
    {
        assert(nv.take(i + 1).drop_last() =~= nv.take(i as int));
        push_str(&mut out, "    note: ");
        push_str(&mut out, r.notes[i].as_str());
        push_str(&mut out, "\n");
        i += 1;
    }
    assert(nv.take(i as int) =~= nv);
    out
}

/// The row of one result in the Markdown report; notes are joined with
/// `; `.
pub open spec fn case_row_spec(r: CaseResult) -> Seq<char> {
    "| "@ + r.case_id@ + " | "@ + r.bucket.spec_label() + " | "@ + decimal(r.tokens_in as nat) + " | "@ + decimal(
        r.tokens_out as nat,
    ) + " | "@ + decimal(r.latency_ms as nat) + " | "@ + join(string_views(r.notes@), "; "@) + " |\n"@
}

/// The row of one result in the Markdown report.
pub fn case_row_markdown(r: &CaseResult) -> (s: String)
    ensures
        s@ == case_row_spec(*r),
{
    let mut out = owned("| ");
    push_str(&mut out, r.case_id.as_str());
    push_str(&mut out, " | ");
    push_str(&mut out, r.bucket.to_string().as_str());
    push_str(&mut out, " | ");
    push_str(&mut out, decimal_string(r.tokens_in as u64).as_str());
    push_str(&mut out, " | ");
    push_str(&mut out, decimal_string(r.tokens_out as u64).as_str());
    push_str(&mut out, " | ");
    push_str(&mut out, decimal_string(r.latency_ms).as_str());
    push_str(&mut out, " | ");
    push_str(&mut out, join_strings(&r.notes, "; ").as_str());
    push_str(&mut out, " |\n");
    out
}

} // verus!
