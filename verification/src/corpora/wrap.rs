//! Provider-specific wrapping of corpus bodies.
//!
//! Each provider target may prepend a short role preamble to the corpus
//! body; `Vanilla` leaves the body as it is.

use vstd::prelude::*;

use super::CorpusTarget;
use crate::text::concat2;

verus! {

/// Role preamble for the Anthropic target.
pub const ANTHROPIC_PREAMBLE: &'static str = "You are an AGM-emitting assistant. When asked to produce knowledge, emit valid AGM v1.2.0 text inside a fenced ```agm block. Follow the grammar below strictly. Do not invent fields. When given a tool schema, prefer the tool call.\n\n---\n\n";

/// Tool-preference preamble for the OpenAI target.
pub const OPENAI_PREAMBLE: &'static str = "You are an AGM-emitting assistant. When the host provides an `create_ticket`, `plan_execution`, or similar tool, always use the tool rather than free-form AGM text. Otherwise, emit AGM inside ```agm fences. Follow the grammar.\n\n---\n\n";

/// The text placed before the body for a target.
pub open spec fn preamble(target: CorpusTarget) -> Seq<char> {
    match target {
        CorpusTarget::Vanilla => Seq::empty(),
        CorpusTarget::Anthropic => ANTHROPIC_PREAMBLE@,
        CorpusTarget::OpenAi => OPENAI_PREAMBLE@,
    }
}

/// Wraps `body` with the preamble of `target`: `Vanilla` returns the body
/// unchanged, the other targets prepend their preamble (which ends with a
/// `---` separator and a blank line).
pub fn wrap_for_target(body: String, target: CorpusTarget) -> (r: String)
    ensures
        r@ == preamble(target) + body@,
{
    match target {
        CorpusTarget::Vanilla => {
            assert(preamble(target) + body@ =~= body@);
            body
        },
        CorpusTarget::Anthropic => concat2(ANTHROPIC_PREAMBLE, body.as_str()),
        CorpusTarget::OpenAi => concat2(OPENAI_PREAMBLE, body.as_str()),
    }
}

} // verus!
