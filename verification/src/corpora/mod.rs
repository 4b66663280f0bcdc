//! Built-in corpora for AGM system prompts.
//!
//! Three flavors of corpus template (`Full`, `Standard`, `GrammarOnly`) and
//! three provider targets (`Anthropic`, `OpenAi`, `Vanilla`). A corpus can
//! be padded with examples from a fixed bank until it reaches a token
//! budget.

pub mod templates;
pub mod tokens;
pub mod wrap;

use vstd::prelude::*;

use crate::runtime::duration::{decimal, decimal_string};
use crate::text::{concat2, owned, push_str};
use templates::{
    EX1, EX10, EX11, EX12, EX2, EX3, EX4, EX5, EX6, EX7, EX8, EX9, FULL_TMPL, GRAMMAR_ONLY_TMPL,
    STANDARD_TMPL,
};
use tokens::{token_estimate, estimate};
use wrap::{preamble, wrap_for_target};

verus! {

/// Corpus content flavor controlling template depth.
#[derive(Debug, Clone, Copy, PartialEq, Eq, Structural)]
pub enum CorpusFlavor {
    /// Full grammar summary, semantic notes, and six varied examples.
    Full,
    /// Abridged grammar and three examples.
    Standard,
    /// Grammar summary only with one minimal example.
    GrammarOnly,
}

/// Provider target controlling preamble wrapping.
#[derive(Debug, Clone, Copy, PartialEq, Eq, Structural)]
pub enum CorpusTarget {
    /// Anthropic system prompt format: role preamble prepended.
    Anthropic,
    /// OpenAI system prompt format: tool-preference preamble prepended.
    OpenAi,
    /// No wrapping: the raw corpus body.
    Vanilla,
}

/// Options of [`render_corpus`].
#[derive(Debug, Clone, Copy)]
pub struct CorpusOptions {
    /// Corpus content flavor.
    pub flavor: CorpusFlavor,
    /// Provider target for wrapping.
    pub target: CorpusTarget,
    /// Minimum token budget: when set, bank examples are appended until the
    /// token count of the (unwrapped) body reaches it.
    pub min_tokens: Option<usize>,
    /// Prepend `# AGM spec version: 1.2.0` to the body before wrapping.
    pub include_version: bool,
}

/// The result of [`render_corpus`].
pub struct CorpusOutput {
    /// Final corpus body (preamble, template and any padding).
    pub body: String,
    /// Token count of `body` after provider wrapping.
    pub estimated_tokens: usize,
    /// Flavor that was used.
    pub flavor: CorpusFlavor,
    /// Target that was used.
    pub target: CorpusTarget,
}

/// Errors of corpus rendering.
pub enum CorpusError {
    /// The token budget cannot be met: the example bank ran out.
    BankExhausted {
        /// Requested minimum token count.
        target: usize,
        /// Token count when the bank ran out.
        actual: usize,
    },
    /// Writing the output failed; holds the I/O error's message.
    Io(String),
}

/// Header line that `include_version` prepends.
pub const VERSION_HEADER: &'static str = "# AGM spec version: 1.2.0\n\n";

/// Number of entries in the example bank.
pub const BANK_SIZE: usize = 12;

impl CorpusError {
    /// The message that describes the error.
    pub open spec fn spec_message(&self) -> Seq<char> {
        match self {
            CorpusError::BankExhausted { target, actual } => "token budget "@ + decimal(*target as nat)
                + " unreachable; bank exhausted at "@ + decimal(*actual as nat)
                + " tokens. Lower --min-tokens or add examples."@,
            CorpusError::Io(m) => "IO error: "@ + m@,
        }
    }

    /// The message that describes the error.
    pub fn message(&self) -> (r: String)
        ensures
            r@ == self.spec_message(),
    {
        match self {
            CorpusError::BankExhausted { target, actual } => {
                let mut m = owned("token budget ");
                push_str(&mut m, decimal_string(*target as u64).as_str());
                push_str(&mut m, " unreachable; bank exhausted at ");
                push_str(&mut m, decimal_string(*actual as u64).as_str());
                push_str(&mut m, " tokens. Lower --min-tokens or add examples.");
                m
            },
            CorpusError::Io(msg) => concat2("IO error: ", msg.as_str()),
        }
    }
}

/// The template text of a flavor.
pub open spec fn template_text(flavor: CorpusFlavor) -> Seq<char> {
    match flavor {
        CorpusFlavor::Full => FULL_TMPL@,
        CorpusFlavor::Standard => STANDARD_TMPL@,
        CorpusFlavor::GrammarOnly => GRAMMAR_ONLY_TMPL@,
    }
}

/// The built-in template source for a flavor.
pub fn builtin_template(flavor: CorpusFlavor) -> (r: &'static str)
    ensures
        r@ == template_text(flavor),
{
    match flavor {
        CorpusFlavor::Full => FULL_TMPL,
        CorpusFlavor::Standard => STANDARD_TMPL,
        CorpusFlavor::GrammarOnly => GRAMMAR_ONLY_TMPL,
    }
}

/// The example bank: `(name, content)` pairs, in padding order.
pub open spec fn bank() -> Seq<(Seq<char>, Seq<char>)> {
    seq![
        ("ex1"@, EX1@),
        ("ex2"@, EX2@),
        ("ex3"@, EX3@),
        ("ex4"@, EX4@),
        ("ex5"@, EX5@),
        ("ex6"@, EX6@),
        ("ex7"@, EX7@),
        ("ex8"@, EX8@),
        ("ex9"@, EX9@),
        ("ex10"@, EX10@),
        ("ex11"@, EX11@),
        ("ex12"@, EX12@),
    ]
}

/// The example bank as `(name, content)` pairs.
pub fn example_bank() -> (r: Vec<(&'static str, &'static str)>)
    ensures
        r@.len() == bank().len(),
        forall|i: int| 0 <= i < r@.len() ==> (#[trigger] r@[i].0@, r@[i].1@) == bank()[i],
{
    vec![
        ("ex1", EX1),
        ("ex2", EX2),
        ("ex3", EX3),
        ("ex4", EX4),
        ("ex5", EX5),
        ("ex6", EX6),
        ("ex7", EX7),
        ("ex8", EX8),
        ("ex9", EX9),
        ("ex10", EX10),
        ("ex11", EX11),
        ("ex12", EX12),
    ]
}

/// The block that padding appends for one bank example.
pub open spec fn example_block(name: Seq<char>, content: Seq<char>) -> Seq<char> {
    "\n\n---\n\n# Example: "@ + name + "\n\n```agm\n"@ + content + "\n```"@
}

/// `body` followed by the blocks of the first `k` bank examples.
pub open spec fn padded(body: Seq<char>, k: nat) -> Seq<char>
    decreases k,
{
    if k == 0 {
        body
    } else {
        padded(body, (k - 1) as nat) + example_block(bank()[k - 1].0, bank()[k - 1].1)
    }
}

/// The template of `flavor`, after the version header when asked for.
pub open spec fn versioned_body(flavor: CorpusFlavor, include_version: bool) -> Seq<char> {
    if include_version {
        VERSION_HEADER@ + template_text(flavor)
    } else {
        template_text(flavor)
    }
}

/// The smallest `k >= from` (at most the bank size) for which `body`
/// padded with `k` examples has at least `min` tokens.
pub open spec fn first_padding(body: Seq<char>, min: nat, from: nat) -> Option<nat>
    decreases bank().len() - from,
{
    if token_estimate(padded(body, from)) >= min {
        Some(from)
    } else if from >= bank().len() {
        None
    } else {
        first_padding(body, min, from + 1)
    }
}

/// One step of the padding loop.
#[derive(Debug, Clone, Copy, PartialEq, Eq, Structural)]
pub enum PaddingStep {
    /// The budget is met.
    Enough,
    /// Append the bank example at this index.
    Append(usize),
    /// The budget is not met and the bank is used up.
    Exhausted,
}

/// Decides the next padding step from the current token count, the budget
/// and the number of bank examples already appended.
pub fn padding_step(current_tokens: usize, min: usize, used: usize) -> (r: PaddingStep)
    ensures
        r == (if current_tokens >= min {
            PaddingStep::Enough
        } else if used < BANK_SIZE {
            PaddingStep::Append(used)
        } else {
            PaddingStep::Exhausted
        }),
{
    if current_tokens >= min {
        PaddingStep::Enough
    } else if used < BANK_SIZE {
        PaddingStep::Append(used)
    } else {
        PaddingStep::Exhausted
    }
}

proof fn lemma_first_padding_found(body: Seq<char>, min: nat, from: nat, k: nat)
    requires
        from <= k <= bank().len(),
        forall|j: nat| from <= j < k ==> token_estimate(#[trigger] padded(body, j)) < min,
        token_estimate(padded(body, k)) >= min,
    ensures
        first_padding(body, min, from) == Some(k),
    decreases k - from,
{
    if from < k {
        lemma_first_padding_found(body, min, from + 1, k);
    }
}

proof fn lemma_first_padding_none(body: Seq<char>, min: nat, from: nat)
    requires
        from <= bank().len(),
        forall|j: nat| from <= j <= bank().len() ==> token_estimate(#[trigger] padded(body, j)) < min,
    ensures
        first_padding(body, min, from) is None,
    decreases bank().len() - from,
{
    if from < bank().len() {
        lemma_first_padding_none(body, min, from + 1);
    }
}

/// When padding finds a count, the padded body meets the token budget, and
/// no smaller count (from `from` on) does: examples are appended only until
/// the budget is reached.
pub proof fn lemma_padding_meets_budget(body: Seq<char>, min: nat, from: nat)
    requires
        first_padding(body, min, from) is Some,
    ensures
        ({
            let k = first_padding(body, min, from)->0;
            &&& from <= k
            &&& (k <= bank().len() || k == from)
            &&& token_estimate(padded(body, k)) >= min
            &&& forall|j: nat| from <= j < k ==> token_estimate(#[trigger] padded(body, j)) < min
        }),
    decreases bank().len() - from,
{
    if token_estimate(padded(body, from)) >= min {
    } else {
        lemma_padding_meets_budget(body, min, from + 1);
        let k = first_padding(body, min, from + 1)->0;
        assert forall|j: nat| from <= j < k implies token_estimate(#[trigger] padded(body, j)) < min by {
            if j > from {
                assert(from + 1 <= j);
            }
        }
    }
}

/// Renders a corpus: the template of the flavor, the version header when
/// asked for, bank examples appended in order until the body has at least
/// `min_tokens` tokens, then the preamble of the target. Fails with
/// `BankExhausted` when the whole bank does not reach the budget.
pub fn render_corpus(opts: &CorpusOptions) -> (r: Result<CorpusOutput, CorpusError>)
    ensures
        ({
            let v = versioned_body(opts.flavor, opts.include_version);
            let padding: Option<nat> = match opts.min_tokens {
                None => Some(0nat),
                Some(min) => first_padding(v, min as nat, 0),
            };
            match padding {
                Some(k) => r matches Ok(out) && out.body@ == preamble(opts.target) + padded(v, k)
                    && out.estimated_tokens == token_estimate(out.body@) && out.flavor == opts.flavor
                    && out.target == opts.target,
                None => r matches Err(e) && e == CorpusError::BankExhausted {
                    target: opts.min_tokens.unwrap(),
                    actual: token_estimate(padded(v, bank().len())) as usize,
                },
            }
        }),
{
    let mut body = owned(builtin_template(opts.flavor));
    if opts.include_version {
        body = concat2(VERSION_HEADER, body.as_str());
    }
    let ghost v = body@;
    if let Some(min) = opts.min_tokens {
        let bank_entries = example_bank();
        let mut used: usize = 0;
        loop
            invariant_except_break
                used <= BANK_SIZE,
                body@ == padded(v, used as nat),
                forall|j: nat| j < used ==> token_estimate(#[trigger] padded(v, j)) < min,
                opts.min_tokens == Some(min),
                v == versioned_body(opts.flavor, opts.include_version),
                bank_entries@.len() == bank().len(),
                forall|i: int| 0 <= i < bank_entries@.len() ==> (#[trigger] bank_entries@[i].0@, bank_entries@[i].1@)
                    == bank()[i],
            ensures
                used <= BANK_SIZE,
                body@ == padded(v, used as nat),
                forall|j: nat| j < used ==> token_estimate(#[trigger] padded(v, j)) < min,
                token_estimate(padded(v, used as nat)) >= min,
            decreases BANK_SIZE - used,
        {
            let current = estimate(body.as_str());
            match padding_step(current, min, used) {
                PaddingStep::Enough => {
                    break;
                },
                PaddingStep::Append(i) => {
                    let (name, content) = bank_entries[i];
                    let ghost before = body@;
                    push_str(&mut body, "\n\n---\n\n# Example: ");
                    push_str(&mut body, name);
                    push_str(&mut body, "\n\n```agm\n");
                    push_str(&mut body, content);
                    push_str(&mut body, "\n```");
                    proof {
                        assert(bank_entries@[i as int].0@ == bank()[i as int].0);
                        assert(body@ =~= before + example_block(bank()[i as int].0, bank()[i as int].1));
                        assert(padded(v, (used + 1) as nat) == padded(v, used as nat) + example_block(
                            bank()[used as int].0,
                            bank()[used as int].1,
                        ));
                    }
                    used = used + 1;
                },
                PaddingStep::Exhausted => {
                    let actual = estimate(body.as_str());
                    proof {
                        assert(used == bank().len());
                        lemma_first_padding_none(v, min as nat, 0);
                    }
                    return Err(CorpusError::BankExhausted { target: min, actual });
                },
            }
        }
        proof {
            lemma_first_padding_found(v, min as nat, 0, used as nat);
        }
    }
    let body = wrap_for_target(body, opts.target);
    let estimated_tokens = estimate(body.as_str());
    Ok(CorpusOutput { body, estimated_tokens, flavor: opts.flavor, target: opts.target })
}

} // verus!
