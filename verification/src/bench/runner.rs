//! Judging bench replies and tallying the results.
//!
//! Parsing, validating and schema-checking a reply are done outside the
//! library; what they found is handed in here as plain values.

use vstd::prelude::*;

use crate::bench::cassette::{response_from_envelope, CassetteEnvelope, CassetteMode};
use crate::bench::provider::{ProviderError, ProviderResponse};
use crate::bench::report::{CaseResult, ComplianceBucket};
use crate::keyed::{str_eq, KeyedMap};
use crate::runtime::duration::{decimal, decimal_string};
use crate::text::{concat2, join, join_strings, owned, push_str, string_views};

verus! {

/// The bucket of a parsed reply: `Pass` (or `NormalizeFixable` when the
/// reply needed normalizing) when every check passed, else by which of
/// validation and schema held.
pub open spec fn bucket_spec(
    validate_ok: bool,
    schema_ok: bool,
    fields_ok: bool,
    type_ok: bool,
    was_normalized: bool,
) -> ComplianceBucket {
    if validate_ok && schema_ok && fields_ok && type_ok {
        if was_normalized {
            ComplianceBucket::NormalizeFixable
        } else {
            ComplianceBucket::Pass
        }
    } else if !validate_ok && schema_ok {
        ComplianceBucket::SchemaOnly
    } else if validate_ok && !schema_ok {
        ComplianceBucket::ValidateOnly
    } else {
        ComplianceBucket::Fail
    }
}

/// A reply is compliant (`Pass` or `NormalizeFixable`) exactly when it
/// validated, matched the schema, had the required fields and the expected
/// node type; a compliant reply is `NormalizeFixable` exactly when it
/// needed normalizing. A non-compliant reply is `SchemaOnly` only when
/// validation failed and the schema held, `ValidateOnly` only the other
/// way round, and `Fail` otherwise.
pub proof fn lemma_bucket_laws(
    validate_ok: bool,
    schema_ok: bool,
    fields_ok: bool,
    type_ok: bool,
    was_normalized: bool,
)
    ensures
        ({
            let b = bucket_spec(validate_ok, schema_ok, fields_ok, type_ok, was_normalized);
            &&& (b == ComplianceBucket::Pass || b == ComplianceBucket::NormalizeFixable) <==> (validate_ok && schema_ok
                && fields_ok && type_ok)
            &&& b == ComplianceBucket::NormalizeFixable <==> (validate_ok && schema_ok && fields_ok && type_ok
                && was_normalized)
            &&& b == ComplianceBucket::SchemaOnly <==> (!validate_ok && schema_ok)
            &&& b == ComplianceBucket::ValidateOnly <==> (validate_ok && !schema_ok)
            &&& b == ComplianceBucket::Fail <==> (!(validate_ok && schema_ok && fields_ok && type_ok) && (validate_ok
                == schema_ok))
            &&& !type_ok ==> !b.spec_is_compliant()
        }),
{
}

/// The bucket of a parsed reply from its checks.
pub fn compliance_bucket(
    validate_ok: bool,
    schema_ok: bool,
    fields_ok: bool,
    type_ok: bool,
    was_normalized: bool,
) -> (r: ComplianceBucket)
    ensures
        r == bucket_spec(validate_ok, schema_ok, fields_ok, type_ok, was_normalized),
{
    if validate_ok && schema_ok && fields_ok && type_ok {
        if was_normalized {
            ComplianceBucket::NormalizeFixable
        } else {
            ComplianceBucket::Pass
        }
    } else if !validate_ok && schema_ok {
        ComplianceBucket::SchemaOnly
    } else if validate_ok && !schema_ok {
        ComplianceBucket::ValidateOnly
    } else {
        ComplianceBucket::Fail
    }
}

/// What is known of a reply before its checks: usage, latency, notes so
/// far, and whether it was normalized to parse.
pub struct EvalContext {
    /// Input tokens.
    pub tokens_in: u32,
    /// Output tokens.
    pub tokens_out: u32,
    /// Latency in milliseconds.
    pub latency_ms: u64,
    /// Notes so far.
    pub notes: Vec<String>,
    /// The reply parsed only after normalization.
    pub was_normalized: bool,
}

/// The notes of an evaluation: the earlier ones, one per validation error
/// code, then the failed field and type checks.
pub open spec fn evaluation_notes(
    notes: Seq<Seq<char>>,
    error_codes: Seq<Seq<char>>,
    fields_ok: bool,
    type_ok: bool,
) -> Seq<Seq<char>> {
    notes + error_codes.map_values(|c: Seq<char>| "validate: "@ + c) + (if fields_ok {
        Seq::empty()
    } else {
        seq!["missing required fields"@]
    }) + (if type_ok {
        Seq::empty()
    } else {
        seq!["wrong node type"@]
    })
}

/// The result of a parsed reply, given the codes of its validation errors
/// (none when it validates) and the outcome of the schema, required-field
/// and node-type checks.
pub fn evaluate_checks(
    case_id: &str,
    ctx: EvalContext,
    error_codes: &Vec<String>,
    schema_ok: bool,
    fields_ok: bool,
    type_ok: bool,
) -> (r: CaseResult)
    ensures
        r.case_id@ == case_id@,
        r.bucket == bucket_spec(error_codes@.len() == 0, schema_ok, fields_ok, type_ok, ctx.was_normalized),
        r.tokens_in == ctx.tokens_in,
        r.tokens_out == ctx.tokens_out,
        r.latency_ms == ctx.latency_ms,
        string_views(r.notes@) == evaluation_notes(
            string_views(ctx.notes@),
            string_views(error_codes@),
            fields_ok,
            type_ok,
        ),
{
    let EvalContext { tokens_in, tokens_out, latency_ms, mut notes, was_normalized } = ctx;
    let ghost n0 = string_views(notes@);
    let ghost codes = string_views(error_codes@);
    let mut i: usize = 0;
    while i < error_codes.len()
        invariant
            i <= error_codes@.len(),
            codes == string_views(error_codes@),
            string_views(notes@) == n0 + codes.take(i as int).map_values(|c: Seq<char>| "validate: "@ + c),
        decreases error_codes@.len() - i,
    {
        let note = concat2("validate: ", error_codes[i].as_str());
        proof {
            crate::text::lemma_views_push(notes@, note);
            assert(codes.take(i + 1).map_values(|c: Seq<char>| "validate: "@ + c) =~= codes.take(i as int).map_values(
                |c: Seq<char>| "validate: "@ + c,
            ).push(note@));
        }
        notes.push(note);
        i += 1;
    }
    assert(codes.take(i as int) =~= codes);
    let validate_ok = error_codes.len() == 0;
    if !fields_ok {
        let note = owned("missing required fields");
        proof {
            crate::text::lemma_views_push(notes@, note);
        }
        notes.push(note);
    }
    let ghost n1 = string_views(notes@);
    if !type_ok {
        let note = owned("wrong node type");
        proof {
            crate::text::lemma_views_push(notes@, note);
        }
        notes.push(note);
    }
    proof {
        assert(string_views(notes@) =~= evaluation_notes(n0, codes, fields_ok, type_ok));
    }
    let bucket = compliance_bucket(validate_ok, schema_ok, fields_ok, type_ok, was_normalized);
    CaseResult { case_id: owned(case_id), bucket, tokens_in, tokens_out, latency_ms, notes }
}

/// The result of a case whose provider call failed.
pub fn provider_error_result(case_id: &str, err: &ProviderError) -> (r: CaseResult)
    ensures
        r.case_id@ == case_id@,
        r.bucket == ComplianceBucket::Error,
        r.tokens_in == 0 && r.tokens_out == 0 && r.latency_ms == 0,
        string_views(r.notes@) == seq!["provider error: "@ + err.spec_message()],
{
    let note = concat2("provider error: ", err.message().as_str());
    let mut notes: Vec<String> = Vec::new();
    notes.push(note);
    assert(string_views(notes@) =~= seq![note@]);
    CaseResult { case_id: owned(case_id), bucket: ComplianceBucket::Error, tokens_in: 0, tokens_out: 0, latency_ms: 0, notes }
}

/// The result of a case whose reply did not parse: the parse errors,
/// joined with `; `.
pub fn parse_error_result(
    case_id: &str,
    tokens_in: u32,
    tokens_out: u32,
    latency_ms: u64,
    errors: &Vec<String>,
) -> (r: CaseResult)
    ensures
        r.case_id@ == case_id@,
        r.bucket == ComplianceBucket::Error,
        r.tokens_in == tokens_in && r.tokens_out == tokens_out && r.latency_ms == latency_ms,
        string_views(r.notes@) == seq!["parse error: "@ + join(string_views(errors@), "; "@)],
{
    let joined = join_strings(errors, "; ");
    let note = concat2("parse error: ", joined.as_str());
    let mut notes: Vec<String> = Vec::new();
    notes.push(note);
    assert(string_views(notes@) =~= seq![note@]);
    CaseResult { case_id: owned(case_id), bucket: ComplianceBucket::Error, tokens_in, tokens_out, latency_ms, notes }
}

/// The note of a reply that parsed after `n` fields were normalized.
pub fn normalized_note(n: usize) -> (r: String)
    ensures
        r@ == "normalized "@ + decimal(n as nat) + " field(s)"@,
{
    let mut r = owned("normalized ");
    push_str(&mut r, decimal_string(n as u64).as_str());
    push_str(&mut r, " field(s)");
    r
}

/// The required fields hold of a node whose fields are `fields` (each
/// present field with its text, when it is text): each is present and,
/// when a value is required, has that text.
pub open spec fn required_fields_hold(
    required: Seq<(String, Option<String>)>,
    fields: Map<Seq<char>, Option<String>>,
) -> bool {
    forall|k: int|
        0 <= k < required.len() ==> {
            let (f, e) = #[trigger] required[k];
            &&& fields.dom().contains(f@)
            &&& (e matches Some(x) ==> (fields[f@] matches Some(v) && v@ == x@))
        }
}

/// Whether the first node of the reply (its fields, when there is one)
/// has the required fields; with none required, any reply has them.
pub fn required_fields_ok(
    required: &Vec<(String, Option<String>)>,
    first_node: Option<&KeyedMap<Option<String>>>,
) -> (r: bool)
    requires
        first_node matches Some(m) ==> m.wf(),
    ensures
        r == (required@.len() == 0 || (first_node matches Some(m) && required_fields_hold(required@, m@))),
{
    if required.len() == 0 {
        return true;
    }
    let fields = match first_node {
        Some(m) => m,
        None => {
            return false;
        },
    };
    let mut k: usize = 0;
    while k < required.len()
        invariant
            k <= required@.len(),
            fields.wf(),
            first_node == Some(fields),
            required_fields_hold(required@.take(k as int), fields@),
        decreases required@.len() - k,
    {
        let (f, e) = &required[k];
        match fields.get(f.as_str()) {
            None => {
                proof {
                    assert(required@[k as int] == (*f, *e));
                }
                return false;
            },
            Some(v) => {
                match e {
                    Some(x) => {
                        let ok = match v {
                            Some(s) => str_eq(s.as_str(), x.as_str()),
                            None => false,
                        };
                        if !ok {
                            proof {
                                assert(required@[k as int] == (*f, *e));
                            }
                            return false;
                        }
                    },
                    None => {},
                }
            },
        }
        proof {
            assert forall|j: int| 0 <= j < k + 1 implies {
                let (f2, e2) = #[trigger] required@.take(k + 1)[j];
                &&& fields@.dom().contains(f2@)
                &&& (e2 matches Some(x) ==> (fields@[f2@] matches Some(v) && v@ == x@))
            } by {
                if j < k {
                    assert(required@.take(k + 1)[j] == required@.take(k as int)[j]);
                } else {
                    assert(required@.take(k + 1)[j] == (*f, *e));
                }
            }
        }
        k += 1;
    }
    assert(required@.take(k as int) =~= required@);
    true
}

/// Whether the reply's first node (its type, when there is one) has the
/// expected type; with none expected, any reply does.
pub fn expected_type_ok(expected: &Option<String>, first_node_type: Option<&str>) -> (r: bool)
    ensures
        r == match expected {
            None => true,
            Some(t) => first_node_type matches Some(x) && x@ == t@,
        },
{
    match expected {
        None => true,
        Some(t) => match first_node_type {
            None => false,
            Some(x) => str_eq(x, t.as_str()),
        },
    }
}

/// The bucket passed the schema check.
pub open spec fn schema_passed(b: ComplianceBucket) -> bool {
    b == ComplianceBucket::Pass || b == ComplianceBucket::NormalizeFixable || b == ComplianceBucket::SchemaOnly
}

/// The bucket passed validation.
pub open spec fn validate_passed(b: ComplianceBucket) -> bool {
    b == ComplianceBucket::Pass || b == ComplianceBucket::NormalizeFixable || b == ComplianceBucket::ValidateOnly
}

/// Number of results whose bucket satisfies `p`.
pub open spec fn count_buckets(rs: Seq<CaseResult>, p: spec_fn(ComplianceBucket) -> bool) -> nat
    decreases rs.len(),
{
    if rs.len() == 0 {
        0
    } else {
        count_buckets(rs.drop_last(), p) + if p(rs.last().bucket) {
            1nat
        } else {
            0
        }
    }
}

/// Sum of a per-result quantity.
pub open spec fn sum_results(rs: Seq<CaseResult>, f: spec_fn(CaseResult) -> nat) -> nat
    decreases rs.len(),
{
    if rs.len() == 0 {
        0
    } else {
        sum_results(rs.drop_last(), f) + f(rs.last())
    }
}

/// Counting results whose bucket satisfies a weaker condition counts at
/// least as many, and never more than there are results.
proof fn lemma_count_buckets_monotone(
    rs: Seq<CaseResult>,
    p: spec_fn(ComplianceBucket) -> bool,
    q: spec_fn(ComplianceBucket) -> bool,
)
    requires
        forall|b: ComplianceBucket| #[trigger] p(b) ==> q(b),
    ensures
        count_buckets(rs, p) <= count_buckets(rs, q),
        count_buckets(rs, q) <= rs.len(),
    decreases rs.len(),
{
    if rs.len() > 0 {
        lemma_count_buckets_monotone(rs.drop_last(), p, q);
    }
}

/// The tallies of a suite nest: passed results are compliant, compliant
/// results passed both the schema check and validation, and no tally
/// exceeds the number of results.
pub proof fn lemma_tallies_nest(rs: Seq<CaseResult>)
    ensures
        count_buckets(rs, |b: ComplianceBucket| b == ComplianceBucket::Pass) <= count_buckets(
            rs,
            |b: ComplianceBucket| b.spec_is_compliant(),
        ),
        count_buckets(rs, |b: ComplianceBucket| b.spec_is_compliant()) <= count_buckets(
            rs,
            |b: ComplianceBucket| schema_passed(b),
        ),
        count_buckets(rs, |b: ComplianceBucket| b.spec_is_compliant()) <= count_buckets(
            rs,
            |b: ComplianceBucket| validate_passed(b),
        ),
        count_buckets(rs, |b: ComplianceBucket| schema_passed(b)) <= rs.len(),
        count_buckets(rs, |b: ComplianceBucket| validate_passed(b)) <= rs.len(),
        count_buckets(rs, |b: ComplianceBucket| b == ComplianceBucket::Fail || b == ComplianceBucket::Error)
            + count_buckets(rs, |b: ComplianceBucket| schema_passed(b) || validate_passed(b)) == rs.len(),
    decreases rs.len(),
{
    let pp = |b: ComplianceBucket| b == ComplianceBucket::Pass;
    let pc = |b: ComplianceBucket| b.spec_is_compliant();
    let ps = |b: ComplianceBucket| schema_passed(b);
    let pv = |b: ComplianceBucket| validate_passed(b);
    lemma_count_buckets_monotone(rs, pp, pc);
    lemma_count_buckets_monotone(rs, pc, ps);
    lemma_count_buckets_monotone(rs, pc, pv);
    lemma_count_buckets_monotone(rs, ps, ps);
    lemma_count_buckets_monotone(rs, pv, pv);
    if rs.len() > 0 {
        lemma_tallies_nest(rs.drop_last());
    }
}

/// Counts over a suite's results, from which the report's rates follow.
pub struct BenchCounts {
    /// Number of results.
    pub total: usize,
    /// Results judged `Pass`.
    pub passed: usize,
    /// Results judged `Pass` or `NormalizeFixable`.
    pub compliant: usize,
    /// Results that passed the schema check.
    pub schema_pass: usize,
    /// Results that passed validation.
    pub validate_pass: usize,
    /// Input tokens over all results.
    pub tokens_in_total: u128,
    /// Output tokens over all results.
    pub tokens_out_total: u128,
}

/// The counts of a suite's results.
pub fn bench_counts(results: &Vec<CaseResult>) -> (r: BenchCounts)
    ensures
        r.total == results@.len(),
        r.passed == count_buckets(results@, |b: ComplianceBucket| b == ComplianceBucket::Pass),
        r.compliant == count_buckets(results@, |b: ComplianceBucket| b.spec_is_compliant()),
        r.schema_pass == count_buckets(results@, |b: ComplianceBucket| schema_passed(b)),
        r.validate_pass == count_buckets(results@, |b: ComplianceBucket| validate_passed(b)),
        r.tokens_in_total == sum_results(results@, |c: CaseResult| c.tokens_in as nat),
        r.tokens_out_total == sum_results(results@, |c: CaseResult| c.tokens_out as nat),
{
    let ghost rs = results@;
    let ghost pp = |b: ComplianceBucket| b == ComplianceBucket::Pass;
    let ghost pc = |b: ComplianceBucket| b.spec_is_compliant();
    let ghost ps = |b: ComplianceBucket| schema_passed(b);
    let ghost pv = |b: ComplianceBucket| validate_passed(b);
    let ghost fi = |c: CaseResult| c.tokens_in as nat;
    let ghost fo = |c: CaseResult| c.tokens_out as nat;
    let mut passed: usize = 0;
    let mut compliant: usize = 0;
    let mut schema_pass: usize = 0;
    let mut validate_pass: usize = 0;
    let mut tin: u128 = 0;
    let mut tout: u128 = 0;
    let mut i: usize = 0;
    while i < results.len()
        invariant
            rs == results@,
            i <= rs.len(),
            pp == (|b: ComplianceBucket| b == ComplianceBucket::Pass),
            pc == (|b: ComplianceBucket| b.spec_is_compliant()),
            ps == (|b: ComplianceBucket| schema_passed(b)),
            pv == (|b: ComplianceBucket| validate_passed(b)),
            fi == (|c: CaseResult| c.tokens_in as nat),
            fo == (|c: CaseResult| c.tokens_out as nat),
            passed == count_buckets(rs.take(i as int), pp),
            compliant == count_buckets(rs.take(i as int), pc),
            schema_pass == count_buckets(rs.take(i as int), ps),
            validate_pass == count_buckets(rs.take(i as int), pv),
            tin == sum_results(rs.take(i as int), fi),
            tout == sum_results(rs.take(i as int), fo),
            passed <= i && compliant <= i && schema_pass <= i && validate_pass <= i,
            tin <= i * 0x1_0000_0000,
            tout <= i * 0x1_0000_0000,
        decreases rs.len() - i,
    {
        assert(rs.take(i + 1).drop_last() =~= rs.take(i as int));
        let r = &results[i];
        let b = r.bucket;
        if b == ComplianceBucket::Pass {
            passed += 1;
        }
        if b.is_compliant() {
            compliant += 1;
        }
        if b == ComplianceBucket::Pass || b == ComplianceBucket::NormalizeFixable || b == ComplianceBucket::SchemaOnly {
            schema_pass += 1;
        }
        if b == ComplianceBucket::Pass || b == ComplianceBucket::NormalizeFixable || b == ComplianceBucket::ValidateOnly {
            validate_pass += 1;
        }
        assert(tin + r.tokens_in <= (i + 1) * 0x1_0000_0000) by (nonlinear_arith)
            requires
                tin <= i * 0x1_0000_0000,
                r.tokens_in < 0x1_0000_0000,
        ;
        assert(tout + r.tokens_out <= (i + 1) * 0x1_0000_0000) by (nonlinear_arith)
            requires
                tout <= i * 0x1_0000_0000,
                r.tokens_out < 0x1_0000_0000,
        ;
        assert((i + 1) * 0x1_0000_0000 <= 0x1_0000_0000_0000_0000_0000_0000) by (nonlinear_arith)
            requires
                i < 0x1_0000_0000_0000_0000,
        ;
        tin = tin + r.tokens_in as u128;
        tout = tout + r.tokens_out as u128;
        i += 1;
    }
    assert(rs.take(i as int) =~= rs);
    BenchCounts {
        total: results.len(),
        passed,
        compliant,
        schema_pass,
        validate_pass,
        tokens_in_total: tin,
        tokens_out_total: tout,
    }
}

/// The first step of fetching a case's reply under a cassette mode.
pub enum FetchStart {
    /// Call the provider; `record` when the reply is to be recorded.
    Live {
        /// Record the reply.
        record: bool,
    },
    /// Read the case's cassette first.
    ReadCassette,
}

/// The first step of fetching a reply: replay modes read the cassette,
/// the others call the provider (recording in `Record` mode).
pub fn fetch_start(mode: &CassetteMode) -> (r: FetchStart)
    ensures
        match mode {
            CassetteMode::Disabled => r == (FetchStart::Live { record: false }),
            CassetteMode::Record(_) => r == (FetchStart::Live { record: true }),
            CassetteMode::Replay(_) | CassetteMode::RecordOrReplay(_) => r is ReadCassette,
        },
{
    match mode {
        CassetteMode::Disabled => FetchStart::Live { record: false },
        CassetteMode::Record(_) => FetchStart::Live { record: true },
        CassetteMode::Replay(_) | CassetteMode::RecordOrReplay(_) => FetchStart::ReadCassette,
    }
}

/// What follows reading a cassette.
pub enum AfterRead {
    /// The fetch is over with this outcome.
    Done(Result<ProviderResponse, ProviderError>),
    /// Call the provider and record the reply.
    LiveAndRecord,
}

/// What follows reading a cassette (`read` is the envelope recorded for
/// the request, none when there is no such cassette, or the error reading
/// it gave): a hit replays; in `Replay` mode a miss is an error and a read
/// error a parse error; otherwise the provider is called and the reply
/// recorded.
pub fn after_cassette_read(mode: &CassetteMode, read: Result<Option<CassetteEnvelope>, String>) -> (r: AfterRead)
    ensures
        match read {
            Ok(Some(env)) => r matches AfterRead::Done(Ok(resp)) && resp.raw_text == env.response_text
                && resp.tokens_in == env.tokens_in && resp.tokens_out == env.tokens_out && resp.latency_ms
                == env.latency_ms,
            Ok(None) => if mode is Replay {
                r matches AfterRead::Done(Err(ProviderError::CassetteMiss))
            } else {
                r is LiveAndRecord
            },
            Err(e) => if mode is Replay {
                r matches AfterRead::Done(Err(ProviderError::ParseResponse(m))) && m == e
            } else {
                r is LiveAndRecord
            },
        },
{
    let replay_only = match mode {
        CassetteMode::Replay(_) => true,
        _ => false,
    };
    match read {
        Ok(Some(env)) => AfterRead::Done(Ok(response_from_envelope(env))),
        Ok(None) => if replay_only {
            AfterRead::Done(Err(ProviderError::CassetteMiss))
        } else {
            AfterRead::LiveAndRecord
        },
        Err(e) => if replay_only {
            AfterRead::Done(Err(ProviderError::ParseResponse(e)))
        } else {
            AfterRead::LiveAndRecord
        },
    }
}

} // verus!
