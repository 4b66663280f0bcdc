//! Token counting for corpus output, with the `cl100k_base` encoder.

use vstd::prelude::*;

use crate::runtime::context::byte_len;

verus! {

/// The number of tokens the `cl100k_base` byte-pair encoder produces for a
/// text, special tokens included; `None` when the encoder cannot be built
/// or its regular-expression engine fails on the text.
pub uninterp spec fn cl100k_encoding_len(text: Seq<char>) -> Option<nat>;

/// The token estimate of a text: the encoder's count, or the text's UTF-8
/// length (as `str::len` gives it) divided by four when the encoder fails.
pub open spec fn token_estimate(text: Seq<char>) -> nat {
    match cl100k_encoding_len(text) {
        Some(n) => n,
        None => ((byte_len(text) as usize) / 4) as nat,
    }
}

/// Counts the tokens of `s` with the `cl100k_base` encoder.
///
/// Trusted wrapper around `tiktoken_rs::cl100k_base` (which builds the
/// encoder, or fails), `CoreBPE::special_tokens` and `CoreBPE::encode` with
/// every special token allowed (which fails when the regular-expression
/// engine fails). The contract claims only that the outcome is
/// `cl100k_encoding_len` of the text, a function of the text alone.
#[verifier::external_body]
fn cl100k_count(s: &str) -> (r: Option<usize>)
    ensures
        match r {
            Some(n) => cl100k_encoding_len(s@) == Some(n as nat),
            None => cl100k_encoding_len(s@) is None,
        },
{
    let bpe = tiktoken_rs::cl100k_base().ok()?;
    let special = bpe.special_tokens();
    bpe.encode(s, &special).ok().map(|(tokens, _)| tokens.len())
}

/// Estimates the number of tokens in `s`: the `cl100k_base` count, or the
/// UTF-8 length divided by four when the encoder fails.
pub fn estimate(s: &str) -> (r: usize)
    ensures
        r == token_estimate(s@),
{
    match cl100k_count(s) {
        Some(n) => n,
        None => s.len() / 4,
    }
}

} // verus!
