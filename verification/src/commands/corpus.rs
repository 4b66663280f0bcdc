//! `corpus` command: emit a provider-aware AGM system-prompt corpus.
//!
//! Exit codes: 0 when the corpus is written, 1 when the token budget cannot
//! be met, 2 on an I/O error.

use vstd::prelude::*;

use crate::corpora::{CorpusError, CorpusFlavor, CorpusTarget};
use crate::runtime::duration::{decimal, decimal_string};
use crate::text::{owned, push_str};

verus! {

/// Exit code of a corpus written successfully.
pub const EXIT_OK: i32 = 0;

/// Exit code when the token budget cannot be met.
pub const EXIT_BANK_EXHAUSTED: i32 = 1;

/// Exit code of an I/O error.
pub const EXIT_IO_ERROR: i32 = 2;

/// Corpus content flavor argument.
#[derive(Debug, Clone, Copy, PartialEq, Eq, Structural)]
pub enum CorpusFlavorArg {
    /// `full`
    Full,
    /// `standard`
    Standard,
    /// `grammar-only`
    GrammarOnly,
}

impl CorpusFlavorArg {
    /// The corpus flavor of the argument.
    pub fn to_core(self) -> (r: CorpusFlavor)
        ensures
            r == match self {
                CorpusFlavorArg::Full => CorpusFlavor::Full,
                CorpusFlavorArg::Standard => CorpusFlavor::Standard,
                CorpusFlavorArg::GrammarOnly => CorpusFlavor::GrammarOnly,
            },
    {
        match self {
            CorpusFlavorArg::Full => CorpusFlavor::Full,
            CorpusFlavorArg::Standard => CorpusFlavor::Standard,
            CorpusFlavorArg::GrammarOnly => CorpusFlavor::GrammarOnly,
        }
    }
}

/// Provider target argument.
#[derive(Debug, Clone, Copy, PartialEq, Eq, Structural)]
pub enum CorpusTargetArg {
    /// `anthropic`
    Anthropic,
    /// `openai`
    OpenAi,
    /// `vanilla`
    Vanilla,
}

impl CorpusTargetArg {
    /// The corpus target of the argument.
    pub fn to_core(self) -> (r: CorpusTarget)
        ensures
            r == match self {
                CorpusTargetArg::Anthropic => CorpusTarget::Anthropic,
                CorpusTargetArg::OpenAi => CorpusTarget::OpenAi,
                CorpusTargetArg::Vanilla => CorpusTarget::Vanilla,
            },
    {
        match self {
            CorpusTargetArg::Anthropic => CorpusTarget::Anthropic,
            CorpusTargetArg::OpenAi => CorpusTarget::OpenAi,
            CorpusTargetArg::Vanilla => CorpusTarget::Vanilla,
        }
    }
}

/// Output format argument.
#[derive(Debug, Clone, Copy, PartialEq, Eq, Structural)]
pub enum CorpusFormatArg {
    /// The corpus text.
    Text,
    /// A JSON object with the corpus and its metadata.
    Json,
}

/// Name of a flavor in JSON output.
pub open spec fn flavor_name(f: CorpusFlavor) -> Seq<char> {
    match f {
        CorpusFlavor::Full => "full"@,
        CorpusFlavor::Standard => "standard"@,
        CorpusFlavor::GrammarOnly => "grammar-only"@,
    }
}

/// Name of a flavor in JSON output.
pub fn flavor_str(f: CorpusFlavor) -> (r: &'static str)
    ensures
        r@ == flavor_name(f),
{
    match f {
        CorpusFlavor::Full => "full",
        CorpusFlavor::Standard => "standard",
        CorpusFlavor::GrammarOnly => "grammar-only",
    }
}

/// Name of a target in JSON output.
pub open spec fn target_name(t: CorpusTarget) -> Seq<char> {
    match t {
        CorpusTarget::Anthropic => "anthropic"@,
        CorpusTarget::OpenAi => "openai"@,
        CorpusTarget::Vanilla => "vanilla"@,
    }
}

/// Name of a target in JSON output.
pub fn target_str(t: CorpusTarget) -> (r: &'static str)
    ensures
        r@ == target_name(t),
{
    match t {
        CorpusTarget::Anthropic => "anthropic",
        CorpusTarget::OpenAi => "openai",
        CorpusTarget::Vanilla => "vanilla",
    }
}

/// Exit code for a rendering error: 1 for an exhausted bank, 2 for I/O.
pub fn error_exit_code(e: &CorpusError) -> (r: i32)
    ensures
        r == match e {
            CorpusError::BankExhausted { .. } => EXIT_BANK_EXHAUSTED,
            CorpusError::Io(_) => EXIT_IO_ERROR,
        },
{
    match e {
        CorpusError::BankExhausted { .. } => EXIT_BANK_EXHAUSTED,
        CorpusError::Io(_) => EXIT_IO_ERROR,
    }
}

/// The line reported for a rendering error.
pub open spec fn error_line_spec(e: CorpusError) -> Seq<char> {
    match e {
        CorpusError::BankExhausted { target, actual } => "error: cannot reach "@ + decimal(target as nat)
            + "-token target; bank exhausted at "@ + decimal(actual as nat)
            + " tokens. Lower --min-tokens or add examples."@,
        CorpusError::Io(m) => "error: I/O error: "@ + m@,
    }
}

/// The line reported for a rendering error.
pub fn error_line(e: &CorpusError) -> (r: String)
    ensures
        r@ == error_line_spec(*e),
{
    match e {
        CorpusError::BankExhausted { target, actual } => {
            let mut r = owned("error: cannot reach ");
            push_str(&mut r, decimal_string(*target as u64).as_str());
            push_str(&mut r, "-token target; bank exhausted at ");
            push_str(&mut r, decimal_string(*actual as u64).as_str());
            push_str(&mut r, " tokens. Lower --min-tokens or add examples.");
            r
        },
        CorpusError::Io(m) => {
            let mut r = owned("error: I/O error: ");
            push_str(&mut r, m.as_str());
            r
        },
    }
}

/// The output of `--count-only`: the token count and a newline.
pub fn count_line(tokens: usize) -> (r: String)
    ensures
        r@ == decimal(tokens as nat) + "\n"@,
{
    let mut r = decimal_string(tokens as u64);
    push_str(&mut r, "\n");
    r
}

} // verus!
