//! Provider data types and extraction of AGM text from model replies.
//!
//! Providers are identified by their HTTP API shape; the HTTP calls
//! themselves happen outside the library.

use vstd::prelude::*;

use crate::runtime::duration::{decimal, decimal_string};
use crate::text::{
    chars_of, concat2, find_char_exec, owned, push_str, rfind_sub, rfind_sub_exec, starts_with,
    starts_with_exec, string_of_range, trim, trim_bounds,
};

verus! {

/// Errors of a call to an inference provider.
#[derive(Debug)]
pub enum ProviderError {
    /// The request could not be sent or answered.
    Network(String),
    /// The provider refused the credentials.
    Auth(String),
    /// The provider rate-limited the request.
    RateLimited,
    /// The request timed out after this many seconds.
    Timeout(u64),
    /// The provider answered with an error status.
    HttpError { status: u16, body: String },
    /// The reply could not be parsed.
    ParseResponse(String),
    /// No cassette was recorded for the request in replay mode.
    CassetteMiss,
}

impl ProviderError {
    /// The message that describes the error.
    pub open spec fn spec_message(&self) -> Seq<char> {
        match self {
            ProviderError::Network(m) => "network error: "@ + m@,
            ProviderError::Auth(m) => "authentication error: "@ + m@,
            ProviderError::RateLimited => "rate limited \u{2014} try again later"@,
            ProviderError::Timeout(s) => "request timed out after "@ + decimal(*s as nat) + "s"@,
            ProviderError::HttpError { status, body } => "provider returned HTTP "@ + decimal(*status as nat) + ": "@
                + body@,
            ProviderError::ParseResponse(m) => "could not parse provider response: "@ + m@,
            ProviderError::CassetteMiss => "cassette miss in Replay mode"@,
        }
    }

    /// The message that describes the error.
    pub fn message(&self) -> (r: String)
        ensures
            r@ == self.spec_message(),
    {
        match self {
            ProviderError::Network(m) => concat2("network error: ", m.as_str()),
            ProviderError::Auth(m) => concat2("authentication error: ", m.as_str()),
            ProviderError::RateLimited => owned("rate limited \u{2014} try again later"),
            ProviderError::Timeout(s) => {
                let mut r = owned("request timed out after ");
                push_str(&mut r, decimal_string(*s).as_str());
                push_str(&mut r, "s");
                r
            },
            ProviderError::HttpError { status, body } => {
                let mut r = owned("provider returned HTTP ");
                push_str(&mut r, decimal_string(*status as u64).as_str());
                push_str(&mut r, ": ");
                push_str(&mut r, body.as_str());
                r
            },
            ProviderError::ParseResponse(m) => concat2("could not parse provider response: ", m.as_str()),
            ProviderError::CassetteMiss => owned("cassette miss in Replay mode"),
        }
    }
}

/// A successful reply of a provider.
pub struct ProviderResponse {
    /// Text of the reply (AGM text, possibly in fences).
    pub raw_text: String,
    /// Input token count.
    pub tokens_in: u32,
    /// Output token count.
    pub tokens_out: u32,
    /// Round-trip latency in milliseconds.
    pub latency_ms: u64,
}

/// Static configuration of a provider.
pub struct ProviderConfig {
    /// Model identifier, passed verbatim to the endpoint.
    pub model: String,
    /// API key value.
    pub api_key: String,
    /// Endpoint URL.
    pub endpoint: String,
    /// Optional extra `(name, value)` header sent with every request.
    pub version_header: Option<(String, String)>,
}

/// The inside of a fence opened by `open`: `s` trimmed must start with
/// `open`; the opening line ends at the first `\n` after it; the text up to
/// the last "```" after that line, trimmed, is the inside.
pub open spec fn strip_fence_spec(s: Seq<char>, open: Seq<char>) -> Option<Seq<char>> {
    let t = trim(s);
    if !starts_with(t, open) {
        None
    } else {
        let after_open = t.skip(open.len() as int);
        match crate::text::find_char(after_open, '\n') {
            None => None,
            Some(i) => {
                let body = after_open.skip(i + 1);
                match rfind_sub(body, "```"@) {
                    Some(c) => Some(trim(body.take(c))),
                    None => None,
                }
            },
        }
    }
}

/// The AGM text of a model reply: the inside of an "```agm" fence, else of a
/// plain "```" fence, else the whole reply; trimmed in every case.
pub open spec fn agm_text_spec(raw: Seq<char>) -> Seq<char> {
    match strip_fence_spec(trim(raw), "```agm"@) {
        Some(inner) => inner,
        None => match strip_fence_spec(trim(raw), "```"@) {
            Some(inner) => inner,
            None => trim(raw),
        },
    }
}

/// The inside of a fence opened by `open` in `s`, if there is one.
pub fn try_strip_fence(s: &str, open: &str) -> (r: Option<String>)
    ensures
        match r {
            Some(t) => strip_fence_spec(s@, open@) == Some(t@),
            None => strip_fence_spec(s@, open@) is None,
        },
{
    let cs = chars_of(s);
    let (a, b) = trim_bounds(cs.as_slice());
    let t = crate::text::take_chars(cs.as_slice(), b);
    let t = drop_chars(t.as_slice(), a);
    assert(t@ =~= cs@.subrange(a as int, b as int));
    assert(t@ == trim(s@));
    let op = chars_of(open);
    if !starts_with_exec(t.as_slice(), op.as_slice()) {
        return None;
    }
    let after_open = drop_chars(t.as_slice(), op.len());
    let i = match find_char_exec(after_open.as_slice(), '\n') {
        Some(i) => i,
        None => {
            return None;
        },
    };
    let body = drop_chars(after_open.as_slice(), i + 1);
    let fence = chars_of("```");
    proof {
        reveal_strlit("```");
    }
    let c = match rfind_sub_exec(body.as_slice(), fence.as_slice()) {
        Some(c) => c,
        None => {
            return None;
        },
    };
    proof {
        crate::text::lemma_rfind_bounds(body@, "```"@, c as int);
    }
    let inner = crate::text::take_chars(body.as_slice(), c);
    let (x, y) = trim_bounds(inner.as_slice());
    Some(string_of_range(inner.as_slice(), x, y))
}

/// `cs` without its first `n` characters.
fn drop_chars(cs: &[char], n: usize) -> (r: Vec<char>)
    requires
        n <= cs@.len(),
    ensures
        r@ == cs@.skip(n as int),
{
    let mut r: Vec<char> = Vec::new();
    let mut i: usize = n;
    while i < cs.len()
        invariant
            n <= i <= cs@.len(),
            r@ == cs@.subrange(n as int, i as int),
        decreases cs@.len() - i,
    {
        r.push(cs[i]);
        assert(cs@.subrange(n as int, i + 1) =~= cs@.subrange(n as int, i as int).push(cs@[i as int]));
        i += 1;
    }
    r
}

/// Strips markdown fences from a model reply: the inside of an "```agm"
/// fence, else of a plain "```" fence, else the whole reply, trimmed.
pub fn extract_agm_text(raw: &str) -> (r: String)
    ensures
        r@ == agm_text_spec(raw@),
{
    let stripped = crate::text::trim_str(raw);
    if let Some(inner) = try_strip_fence(stripped.as_str(), "```agm") {
        return inner;
    }
    if let Some(inner) = try_strip_fence(stripped.as_str(), "```") {
        return inner;
    }
    stripped
}

/// Output tokens requested from a Messages-style endpoint when no limit is
/// given.
pub const DEFAULT_MAX_TOKENS_OUT: u32 = 4096;

/// The system prompt sent with every request.
pub const AGM_SYSTEM_PROMPT: &'static str = "You are an expert at generating AGM (Agent Graph Memory) structured files. When asked to produce an AGM node, emit only the AGM text using the canonical line-oriented syntax. Do NOT include any prose before or after the AGM block. If you use a code fence, open it with ```agm and close with ```.";

/// The HTTP status is a success (2xx).
pub open spec fn status_ok(status: u16) -> bool {
    200 <= status < 300
}

/// Whether an HTTP status is a success (2xx).
pub fn is_success_status(status: u16) -> (r: bool)
    ensures
        r == status_ok(status),
{
    200 <= status && status < 300
}

/// The error of a reply whose status is not a success: refused
/// credentials (401, 403), rate limiting (429), or an HTTP error with the
/// reply's body.
pub fn status_error(status: u16, body: String) -> (r: ProviderError)
    requires
        !status_ok(status),
    ensures
        (status == 401 || status == 403) ==> (r matches ProviderError::Auth(b) && b@ == body@),
        status == 429 ==> r is RateLimited,
        (status != 401 && status != 403 && status != 429) ==> (r matches ProviderError::HttpError {
            status: s,
            body: b,
        } && s == status && b@ == body@),
{
    if status == 401 || status == 403 {
        ProviderError::Auth(body)
    } else if status == 429 {
        ProviderError::RateLimited
    } else {
        ProviderError::HttpError { status, body }
    }
}

/// A content block of a Messages-style reply.
pub enum MessagesBlock {
    /// Text.
    Text(String),
    /// A tool call; its input rendered as pretty JSON.
    ToolUse(String),
    /// Anything else.
    Other,
}

/// Position of the first tool-call block.
pub open spec fn first_tool_use(blocks: Seq<MessagesBlock>) -> Option<int>
    decreases blocks.len(),
{
    if blocks.len() == 0 {
        None
    } else {
        match first_tool_use(blocks.drop_last()) {
            Some(i) => Some(i),
            None => if blocks.last() is ToolUse {
                Some(blocks.len() - 1)
            } else {
                None
            },
        }
    }
}

/// Position of the first text block.
pub open spec fn first_text(blocks: Seq<MessagesBlock>) -> Option<int>
    decreases blocks.len(),
{
    if blocks.len() == 0 {
        None
    } else {
        match first_text(blocks.drop_last()) {
            Some(i) => Some(i),
            None => if blocks.last() is Text {
                Some(blocks.len() - 1)
            } else {
                None
            },
        }
    }
}

/// The reply text of a Messages-style reply: the first tool call's input,
/// else the AGM text of the first text block.
pub open spec fn messages_text_spec(blocks: Seq<MessagesBlock>) -> Option<Seq<char>> {
    match first_tool_use(blocks) {
        Some(i) => Some(blocks[i]->ToolUse_0@),
        None => match first_text(blocks) {
            Some(i) => Some(agm_text_spec(blocks[i]->Text_0@)),
            None => None,
        },
    }
}

proof fn lemma_first_block_prefix(blocks: Seq<MessagesBlock>, k: int, tool: bool)
    requires
        0 <= k <= blocks.len(),
        tool ==> first_tool_use(blocks.take(k)) is Some,
        !tool ==> first_text(blocks.take(k)) is Some,
    ensures
        tool ==> first_tool_use(blocks) == first_tool_use(blocks.take(k)),
        !tool ==> first_text(blocks) == first_text(blocks.take(k)),
    decreases blocks.len() - k,
{
    if k < blocks.len() {
        assert(blocks.take(k + 1).drop_last() =~= blocks.take(k));
        lemma_first_block_prefix(blocks, k + 1, tool);
    } else {
        assert(blocks.take(k) =~= blocks);
    }
}

/// The reply text of a Messages-style reply; an error when it has neither
/// a tool call nor text.
pub fn extract_from_messages_content(blocks: &Vec<MessagesBlock>) -> (r: Result<String, ProviderError>)
    ensures
        match r {
            Ok(t) => messages_text_spec(blocks@) == Some(t@),
            Err(e) => messages_text_spec(blocks@) is None && (e matches ProviderError::ParseResponse(m) && m@
                == "response contained no text or tool_use block"@),
        },
{
    let ghost bs = blocks@;
    let mut i: usize = 0;
    while i < blocks.len()
        invariant
            bs == blocks@,
            i <= bs.len(),
            first_tool_use(bs.take(i as int)) is None,
        decreases bs.len() - i,
    {
        assert(bs.take(i + 1).drop_last() =~= bs.take(i as int));
        if let MessagesBlock::ToolUse(input) = &blocks[i] {
            proof {
                assert(first_tool_use(bs.take(i + 1)) == Some(i as int));
                lemma_first_block_prefix(bs, i + 1, true);
            }
            return Ok(input.clone());
        }
        i += 1;
    }
    assert(bs.take(i as int) =~= bs);
    let mut j: usize = 0;
    while j < blocks.len()
        invariant
            bs == blocks@,
            j <= bs.len(),
            first_tool_use(bs) is None,
            first_text(bs.take(j as int)) is None,
        decreases bs.len() - j,
    {
        assert(bs.take(j + 1).drop_last() =~= bs.take(j as int));
        if let MessagesBlock::Text(text) = &blocks[j] {
            proof {
                assert(first_text(bs.take(j + 1)) == Some(j as int));
                lemma_first_block_prefix(bs, j + 1, false);
            }
            return Ok(extract_agm_text(text.as_str()));
        }
        j += 1;
    }
    assert(bs.take(j as int) =~= bs);
    Err(ProviderError::ParseResponse(owned("response contained no text or tool_use block")))
}

/// The first choice of a Chat-Completions-style reply: its content and the
/// arguments of its tool calls, when it has a tool-call list.
pub struct ChatChoice {
    /// The message content.
    pub content: Option<String>,
    /// Arguments of the tool calls, in order.
    pub tool_call_arguments: Option<Vec<String>>,
}

/// The reply text of a Chat-Completions-style reply: the first tool call's
/// arguments (the content when the tool-call list is empty), else the AGM
/// text of the content.
pub open spec fn chat_text_spec(c: ChatChoice) -> Seq<char> {
    let content = match c.content {
        Some(s) => s@,
        None => Seq::empty(),
    };
    match c.tool_call_arguments {
        Some(v) => if v@.len() > 0 {
            v@[0]@
        } else {
            content
        },
        None => agm_text_spec(content),
    }
}

/// The reply text of a Chat-Completions-style reply, from its first
/// choice; an error when there is none.
pub fn chat_raw_text(first: Option<ChatChoice>) -> (r: Result<String, ProviderError>)
    ensures
        match first {
            Some(c) => r matches Ok(t) && t@ == chat_text_spec(c),
            None => r matches Err(ProviderError::ParseResponse(m)) && m@ == "empty choices array"@,
        },
{
    match first {
        None => Err(ProviderError::ParseResponse(owned("empty choices array"))),
        Some(c) => {
            let content = match c.content {
                Some(s) => s,
                None => String::new(),
            };
            match c.tool_call_arguments {
                Some(v) => {
                    if v.len() > 0 {
                        Ok(v[0].clone())
                    } else {
                        Ok(content)
                    }
                },
                None => Ok(extract_agm_text(content.as_str())),
            }
        },
    }
}

} // verus!
