//! Cassettes: recorded provider replies, stored as JSON envelopes at
//! `<dir>/v1.0.0/<provider>/<model>/<case_id>.json` and looked up by the
//! SHA-256 of `provider:model:prompt`. Reading and writing the files happens
//! outside the library.

use vstd::prelude::*;
use vstd::string::StringSliceAdditionalSpecFns;

use crate::bench::provider::ProviderResponse;
use crate::clock::now_unix_nanos;
use crate::keyed::str_eq;
use crate::runtime::duration::{decimal, decimal_string};
use crate::text::{chars_of, concat2, owned, push_char, push_str, string_of_range};

verus! {

/// JSON envelope of a recorded provider reply.
pub struct CassetteEnvelope {
    /// SHA-256 (hex) of `provider:model:prompt`.
    pub request_hash: String,
    /// First 120 characters of the prompt.
    pub prompt_preview: String,
    /// Text of the recorded reply.
    pub response_text: String,
    /// Recorded input token count.
    pub tokens_in: u32,
    /// Recorded output token count.
    pub tokens_out: u32,
    /// Recorded latency in milliseconds.
    pub latency_ms: u64,
    /// When the cassette was recorded.
    pub recorded_at: String,
}

/// Whether cassettes are used, and how.
pub enum CassetteMode {
    /// No cassettes: every request goes live.
    Disabled,
    /// Record replies into the directory, overwriting.
    Record(String),
    /// Replay from the directory; a missing cassette is an error.
    Replay(String),
    /// Replay when a cassette exists, else go live and record.
    RecordOrReplay(String),
}

/// SHA-256 digest of a byte string.
pub uninterp spec fn sha256(data: Seq<u8>) -> Seq<u8>;

/// SHA-256 digest of `data`.
///
/// Trusted wrapper around `sha2::Sha256::digest`: the result is the digest
/// named `sha256` of the bytes, 32 bytes long.
#[verifier::external_body]
fn sha256_digest(data: &[u8]) -> (r: Vec<u8>)
    ensures
        r@ == sha256(data@),
        r@.len() == 32,
{
    <sha2::Sha256 as sha2::Digest>::digest(data).to_vec()
}

/// Lowercase hexadecimal digit of a value below 16.
pub open spec fn hex_digit(v: int) -> char {
    if v < 10 {
        (v + '0' as int) as char
    } else {
        (v - 10 + 'a' as int) as char
    }
}

/// Lowercase hexadecimal text of a byte string, two digits per byte.
pub open spec fn hex_text(bytes: Seq<u8>) -> Seq<char>
    decreases bytes.len(),
{
    if bytes.len() == 0 {
        Seq::empty()
    } else {
        hex_text(bytes.drop_last()) + seq![hex_digit((bytes.last() / 16) as int), hex_digit((bytes.last() % 16) as int)]
    }
}

/// Lowercase hexadecimal text of `bytes`.
///
/// Trusted wrapper around `hex::encode`, which writes each byte as two
/// digits from `0123456789abcdef`, high nibble first.
#[verifier::external_body]
fn hex_encode(bytes: &[u8]) -> (r: String)
    ensures
        r@ == hex_text(bytes@),
{
    hex::encode(bytes)
}

/// The bytes that a cassette key hashes: `provider:model:prompt` in UTF-8.
pub open spec fn key_bytes(provider: &str, model: &str, prompt: &str) -> Seq<u8> {
    provider.spec_bytes() + seq![58u8] + model.spec_bytes() + seq![58u8] + prompt.spec_bytes()
}

fn push_bytes(out: &mut Vec<u8>, b: &[u8])
    ensures
        final(out)@ == old(out)@ + b@,
{
    let mut i: usize = 0;
    while i < b.len()
        invariant
            i <= b@.len(),
            out@ == old(out)@ + b@.take(i as int),
        decreases b@.len() - i,
    {
        out.push(b[i]);
        assert(b@.take(i + 1) =~= b@.take(i as int).push(b@[i as int]));
        assert(out@ =~= old(out)@ + b@.take(i + 1));
        i += 1;
    }
    assert(b@.take(i as int) =~= b@);
}

/// The cassette lookup key: the SHA-256 of `provider:model:prompt`, in
/// lowercase hexadecimal.
pub fn cassette_key(provider: &str, model: &str, prompt: &str) -> (r: String)
    ensures
        r@ == hex_text(sha256(key_bytes(provider, model, prompt))),
        r@.len() == 64,
{
    let mut data: Vec<u8> = Vec::new();
    push_bytes(&mut data, provider.as_bytes());
    data.push(58u8);
    push_bytes(&mut data, model.as_bytes());
    data.push(58u8);
    push_bytes(&mut data, prompt.as_bytes());
    assert(data@ =~= key_bytes(provider, model, prompt));
    let digest = sha256_digest(data.as_slice());
    let r = hex_encode(digest.as_slice());
    proof {
        lemma_hex_len(digest@);
    }
    r
}

proof fn lemma_hex_len(b: Seq<u8>)
    ensures
        hex_text(b).len() == 2 * b.len(),
    decreases b.len(),
{
    if b.len() > 0 {
        lemma_hex_len(b.drop_last());
    }
}

/// `base` joined with `part` as a path: `part` itself when it is absolute,
/// else `part` after `base` and a `/` (none when `base` is empty or already
/// ends with `/`).
pub open spec fn path_join(base: Seq<char>, part: Seq<char>) -> Seq<char> {
    if part.len() > 0 && part[0] == '/' {
        part
    } else if base.len() == 0 || base.last() == '/' {
        base + part
    } else {
        base + "/"@ + part
    }
}

/// Joins `part` to the path `base`.
pub fn join_path(base: &str, part: &str) -> (r: String)
    ensures
        r@ == path_join(base@, part@),
{
    let b = chars_of(base);
    let p = chars_of(part);
    if p.len() > 0 && p[0] == '/' {
        return owned(part);
    }
    if b.len() == 0 || b[b.len() - 1] == '/' {
        return concat2(base, part);
    }
    let mut r = owned(base);
    push_char(&mut r, '/');
    push_str(&mut r, part);
    proof {
        reveal_strlit("/");
        assert(base@.push('/') + part@ =~= base@ + "/"@ + part@);
    }
    r
}

/// `s` with every `/` replaced by `_`.
pub open spec fn slash_to_underscore(s: Seq<char>) -> Seq<char> {
    s.map_values(|c: char| if c == '/' { '_' } else { c })
}

/// The cassette file path of a case:
/// `<dir>/v1.0.0/<provider>/<model>/<case_id>.json`, with `/` in the case id
/// replaced by `_`.
pub open spec fn cassette_path_spec(dir: Seq<char>, provider: Seq<char>, model: Seq<char>, case_id: Seq<char>) -> Seq<char> {
    path_join(
        path_join(path_join(path_join(dir, "v1.0.0"@), provider), model),
        slash_to_underscore(case_id) + ".json"@,
    )
}

/// The cassette file path of a case.
pub fn cassette_path(dir: &str, provider: &str, model: &str, case_id: &str) -> (r: String)
    ensures
        r@ == cassette_path_spec(dir@, provider@, model@, case_id@),
{
    let cs = chars_of(case_id);
    let mut file = String::new();
    let mut i: usize = 0;
    while i < cs.len()
        invariant
            i <= cs@.len(),
            file@ == slash_to_underscore(cs@.take(i as int)),
        decreases cs@.len() - i,
    {
        let c = if cs[i] == '/' {
            '_'
        } else {
            cs[i]
        };
        push_char(&mut file, c);
        assert(slash_to_underscore(cs@.take(i + 1)) =~= slash_to_underscore(cs@.take(i as int)).push(c));
        i += 1;
    }
    assert(cs@.take(i as int) =~= cs@);
    push_str(&mut file, ".json");
    let a = join_path(dir, "v1.0.0");
    let b = join_path(a.as_str(), provider);
    let c = join_path(b.as_str(), model);
    join_path(c.as_str(), file.as_str())
}

/// The envelope read from a cassette file, if it was recorded for the
/// expected request hash.
pub fn accept_cassette(env: CassetteEnvelope, expected_hash: &str) -> (r: Option<CassetteEnvelope>)
    ensures
        r == (if env.request_hash@ == expected_hash@ {
            Some(env)
        } else {
            None
        }),
{
    if str_eq(env.request_hash.as_str(), expected_hash) {
        Some(env)
    } else {
        None
    }
}

/// The provider reply that a cassette replays.
pub fn response_from_envelope(env: CassetteEnvelope) -> (r: ProviderResponse)
    ensures
        r.raw_text == env.response_text,
        r.tokens_in == env.tokens_in,
        r.tokens_out == env.tokens_out,
        r.latency_ms == env.latency_ms,
{
    ProviderResponse {
        raw_text: env.response_text,
        tokens_in: env.tokens_in,
        tokens_out: env.tokens_out,
        latency_ms: env.latency_ms,
    }
}

/// The envelope that records `resp` for a request with hash `hash` and
/// prompt `prompt`.
pub fn envelope_for(hash: String, prompt: &str, resp: &ProviderResponse, recorded_at: String) -> (r: CassetteEnvelope)
    ensures
        r.request_hash == hash,
        r.prompt_preview@ == prompt@.take(if prompt@.len() < 120 {
            prompt@.len() as int
        } else {
            120
        }),
        r.response_text@ == resp.raw_text@,
        r.tokens_in == resp.tokens_in,
        r.tokens_out == resp.tokens_out,
        r.latency_ms == resp.latency_ms,
        r.recorded_at == recorded_at,
{
    let cs = chars_of(prompt);
    let n = if cs.len() < 120 {
        cs.len()
    } else {
        120
    };
    let preview = string_of_range(cs.as_slice(), 0, n);
    assert(cs@.subrange(0, n as int) =~= prompt@.take(n as int));
    CassetteEnvelope {
        request_hash: hash,
        prompt_preview: preview,
        response_text: resp.raw_text.clone(),
        tokens_in: resp.tokens_in,
        tokens_out: resp.tokens_out,
        latency_ms: resp.latency_ms,
        recorded_at,
    }
}

/// `d` padded on the left with `0` to at least `w` characters.
pub open spec fn zero_pad(d: Seq<char>, w: nat) -> Seq<char> {
    if d.len() < w {
        Seq::new((w - d.len()) as nat, |i: int| '0') + d
    } else {
        d
    }
}

fn padded_decimal(n: u64, w: usize) -> (r: String)
    ensures
        r@ == zero_pad(decimal(n as nat), w as nat),
{
    let d = decimal_string(n);
    let dc = chars_of(d.as_str());
    if dc.len() >= w {
        return d;
    }
    let mut r = String::new();
    let mut i: usize = 0;
    let k = w - dc.len();
    while i < k
        invariant
            i <= k,
            r@ == Seq::new(i as nat, |j: int| '0'),
        decreases k - i,
    {
        push_char(&mut r, '0');
        assert(r@ =~= Seq::new((i + 1) as nat, |j: int| '0'));
        i += 1;
    }
    push_str(&mut r, d.as_str());
    r
}

/// The recording timestamp for `secs` seconds since the Unix epoch: a fixed
/// date followed by the day count and the time of day,
/// `2026-01-01T{days:05}+{h:02}:{m:02}:{s:02}Z`.
pub open spec fn timestamp_spec(secs: nat) -> Seq<char> {
    "2026-01-01T"@ + zero_pad(decimal(secs / 86400), 5) + "+"@ + zero_pad(decimal((secs / 3600) % 24), 2) + ":"@
        + zero_pad(decimal((secs / 60) % 60), 2) + ":"@ + zero_pad(decimal(secs % 60), 2) + "Z"@
}

/// The recording timestamp for `secs` seconds since the Unix epoch.
pub fn timestamp_from_secs(secs: u64) -> (r: String)
    ensures
        r@ == timestamp_spec(secs as nat),
{
    let mut r = owned("2026-01-01T");
    push_str(&mut r, padded_decimal(secs / 86400, 5).as_str());
    push_str(&mut r, "+");
    push_str(&mut r, padded_decimal((secs / 3600) % 24, 2).as_str());
    push_str(&mut r, ":");
    push_str(&mut r, padded_decimal((secs / 60) % 60, 2).as_str());
    push_str(&mut r, ":");
    push_str(&mut r, padded_decimal(secs % 60, 2).as_str());
    push_str(&mut r, "Z");
    r
}

/// Whole seconds since the Unix epoch of an instant given in nanoseconds
/// since the epoch: 0 for instants before the epoch, `u64::MAX` past what a
/// `u64` holds.
pub open spec fn whole_secs(nanos: int) -> nat {
    if nanos < 0 {
        0
    } else if nanos / 1_000_000_000 > u64::MAX {
        u64::MAX as nat
    } else {
        (nanos / 1_000_000_000) as nat
    }
}

/// Whole seconds since the Unix epoch of an instant given in nanoseconds.
pub fn secs_from_nanos(nanos: i128) -> (r: u64)
    ensures
        r == whole_secs(nanos as int),
{
    if nanos < 0 {
        0
    } else {
        let s = nanos / 1_000_000_000;
        if s > u64::MAX as i128 {
            u64::MAX
        } else {
            s as u64
        }
    }
}

/// The recording timestamp of now.
pub fn chrono_now() -> (r: String)
    ensures
        exists|secs: u64| r@ == #[trigger] timestamp_spec(secs as nat),
{
    timestamp_from_secs(secs_from_nanos(now_unix_nanos()))
}

} // verus!
