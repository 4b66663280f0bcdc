//! `llm-bench` command: provider selection, cassette mode, case selection
//! and exit code.
//!
//! Exit codes: 0 when every case passed, 1 when a case failed, 2 when the
//! suite errored (every case an error, bad configuration), 3 when
//! credentials are missing.

use vstd::prelude::*;

use crate::bench::cassette::CassetteMode;
use crate::bench::report::{CaseResult, ComplianceBucket};

verus! {

/// Provider kind selected on the command line.
#[derive(Debug, Clone, Copy, PartialEq, Eq, Structural)]
pub enum ProviderKind {
    /// Messages-style HTTP API.
    Messages,
    /// Chat-Completions-style HTTP API.
    Chat,
}

/// Name of the environment variable that holds the API key by default.
pub fn default_key_var(kind: ProviderKind) -> (r: &'static str)
    ensures
        r@ == match kind {
            ProviderKind::Messages => "AGM_MESSAGES_KEY"@,
            ProviderKind::Chat => "AGM_CHAT_KEY"@,
        },
{
    match kind {
        ProviderKind::Messages => "AGM_MESSAGES_KEY",
        ProviderKind::Chat => "AGM_CHAT_KEY",
    }
}

/// Name of the environment variable that holds the endpoint.
pub fn endpoint_var(kind: ProviderKind) -> (r: &'static str)
    ensures
        r@ == match kind {
            ProviderKind::Messages => "AGM_MESSAGES_ENDPOINT"@,
            ProviderKind::Chat => "AGM_CHAT_ENDPOINT"@,
        },
{
    match kind {
        ProviderKind::Messages => "AGM_MESSAGES_ENDPOINT",
        ProviderKind::Chat => "AGM_CHAT_ENDPOINT",
    }
}

/// The cassette mode of the flags: none without a directory or with
/// `--live`, recording with `--record`, replay otherwise.
pub fn build_cassette_mode(cassettes_dir: Option<String>, record: bool, live: bool) -> (r: CassetteMode)
    ensures
        match cassettes_dir {
            None => r is Disabled,
            Some(d) => if live {
                r is Disabled
            } else if record {
                r == CassetteMode::Record(d)
            } else {
                r == CassetteMode::Replay(d)
            },
        },
{
    match cassettes_dir {
        None => CassetteMode::Disabled,
        Some(dir) => {
            if live {
                CassetteMode::Disabled
            } else if record {
                CassetteMode::Record(dir)
            } else {
                CassetteMode::Replay(dir)
            }
        },
    }
}

/// Whether the run only replays cassettes, so that it needs no live
/// credentials.
pub fn is_replay_only(mode: &CassetteMode, live: bool) -> (r: bool)
    ensures
        r == (*mode is Replay && !live),
{
    match mode {
        CassetteMode::Replay(_) => !live,
        _ => false,
    }
}

/// Number of results that are not compliant.
pub open spec fn failures(results: Seq<CaseResult>) -> nat
    decreases results.len(),
{
    if results.len() == 0 {
        0
    } else {
        failures(results.drop_last()) + if results.last().bucket.spec_is_compliant() {
            0nat
        } else {
            1nat
        }
    }
}

/// Every result is an `Error`.
pub open spec fn all_errored(results: Seq<CaseResult>) -> bool {
    forall|i: int| 0 <= i < results.len() ==> #[trigger] results[i].bucket == ComplianceBucket::Error
}

/// Exit code of a finished suite: 2 when the suite has cases and every
/// one of them errored (the suite itself failed), 1 when the suite ran and
/// some case failed, 0 when every case passed.
pub fn bench_exit_code(results: &Vec<CaseResult>, total: usize) -> (r: i32)
    ensures
        r == (if total > 0 && all_errored(results@) {
            2i32
        } else if failures(results@) > 0 {
            1i32
        } else {
            0i32
        }),
{
    let mut failed: usize = 0;
    let mut errored = true;
    let mut i: usize = 0;
    while i < results.len()
        invariant
            i <= results@.len(),
            failed == failures(results@.take(i as int)),
            failed <= i,
            errored == all_errored(results@.take(i as int)),
        decreases results@.len() - i,
    {
        assert(results@.take(i + 1).drop_last() =~= results@.take(i as int));
        if !results[i].bucket.is_compliant() {
            failed = failed + 1;
        }
        if results[i].bucket != ComplianceBucket::Error {
            errored = false;
        }
        proof {
            let t = results@.take(i + 1);
            if errored {
                assert forall|j: int| 0 <= j < t.len() implies #[trigger] t[j].bucket == ComplianceBucket::Error by {
                    if j < i {
                        assert(t[j] == results@.take(i as int)[j]);
                    }
                }
            } else {
                if results@[i as int].bucket != ComplianceBucket::Error {
                    assert(t[i as int] == results@[i as int]);
                } else {
                    let j = choose|j: int| 0 <= j < i && !(#[trigger] results@.take(i as int)[j].bucket == ComplianceBucket::Error);
                    assert(t[j] == results@.take(i as int)[j]);
                }
            }
        }
        i += 1;
    }
    assert(results@.take(i as int) =~= results@);
    if total > 0 && errored {
        2
    } else if failed > 0 {
        1
    } else {
        0
    }
}

/// The extra version header of Messages-style requests: both its name
/// and its value must be given and non-empty.
pub fn version_header(name: Option<String>, value: Option<String>) -> (r: Option<(String, String)>)
    ensures
        match r {
            Some((n, v)) => name == Some(n) && value == Some(v) && n@.len() > 0 && v@.len() > 0,
            None => !((name matches Some(n) && n@.len() > 0) && (value matches Some(v) && v@.len() > 0)),
        },
{
    match (name, value) {
        (Some(n), Some(v)) => {
            let nonempty = crate::text::chars_of(n.as_str()).len() > 0 && crate::text::chars_of(v.as_str()).len() > 0;
            if nonempty {
                Some((n, v))
            } else {
                None
            }
        },
        _ => None,
    }
}

/// Total UTF-8 length of prompts.
pub open spec fn prompt_bytes(prompts: Seq<String>) -> nat
    decreases prompts.len(),
{
    if prompts.len() == 0 {
        0
    } else {
        prompt_bytes(prompts.drop_last()) + crate::runtime::context::byte_len(prompts.last()@)
    }
}

/// Output tokens assumed per case when only estimating cost.
pub const ASSUMED_TOKENS_OUT_PER_CASE: usize = 512;

/// Token counts of a cost-only estimate: a quarter of the prompts' bytes
/// in, and a fixed amount out per case.
pub fn cost_only_tokens(prompts: &Vec<String>) -> (r: (usize, usize))
    requires
        prompt_bytes(prompts@) <= usize::MAX,
        prompts@.len() * ASSUMED_TOKENS_OUT_PER_CASE <= usize::MAX,
    ensures
        r.0 == prompt_bytes(prompts@) / 4,
        r.1 == prompts@.len() * ASSUMED_TOKENS_OUT_PER_CASE,
{
    let mut total: usize = 0;
    let mut i: usize = 0;
    while i < prompts.len()
        invariant
            i <= prompts@.len(),
            total == prompt_bytes(prompts@.take(i as int)),
            prompt_bytes(prompts@) <= usize::MAX,
        decreases prompts@.len() - i,
    {
        proof {
            assert(prompts@.take(i + 1).drop_last() =~= prompts@.take(i as int));
            lemma_prompt_bytes_prefix(prompts@, i + 1);
        }
        total = total + prompts[i].as_str().len();
        i += 1;
    }
    assert(prompts@.take(i as int) =~= prompts@);
    (total / 4, prompts.len() * ASSUMED_TOKENS_OUT_PER_CASE)
}

proof fn lemma_prompt_bytes_prefix(ps: Seq<String>, k: int)
    requires
        0 <= k <= ps.len(),
    ensures
        prompt_bytes(ps.take(k)) <= prompt_bytes(ps),
    decreases ps.len(),
{
    if k < ps.len() {
        assert(ps.drop_last().take(k) =~= ps.take(k));
        lemma_prompt_bytes_prefix(ps.drop_last(), k);
    } else {
        assert(ps.take(k) =~= ps);
    }
}

} // verus!
