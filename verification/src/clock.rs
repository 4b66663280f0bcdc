//! Wall-clock time, through the `time` crate.
//!
//! What these functions return depends on when they are called, so their
//! contracts say nothing of the instant; the library states its behaviour
//! for every timestamp they may hand back.

use vstd::prelude::*;

use crate::runtime::duration::{decimal, decimal_string};
use crate::text::{chars_of, owned, push_char, push_str};

verus! {

/// The current UTC time in RFC 3339 form.
///
/// Trusted wrapper around `time::OffsetDateTime::now_utc` formatted with
/// `time::format_description::well_known::Rfc3339` (empty when formatting
/// fails). The contract claims only that a non-empty result is RFC 3339
/// text, which `rfc3339_instant_nanos` reads; which instant it denotes
/// depends on the clock.
#[verifier::external_body]
pub(crate) fn now_iso8601() -> (r: String)
    ensures
        r@.len() == 0 || rfc3339_instant_nanos(r@) is Some,
{
    match time::OffsetDateTime::now_utc().format(&time::format_description::well_known::Rfc3339) {
        Ok(s) => s,
        Err(_) => String::new(),
    }
}

/// Calendar fields of a UTC instant.
pub struct UtcFields {
    /// The year.
    pub year: i32,
    /// The month, 1 to 12.
    pub month: u8,
    /// The day of the month.
    pub day: u8,
    /// The hour.
    pub hour: u8,
    /// The minute.
    pub minute: u8,
    /// The second.
    pub second: u8,
}

/// The calendar fields of the current UTC time.
///
/// Trusted wrapper around `time::OffsetDateTime::now_utc` and its `year`,
/// `month` (as its number), `day`, `hour`, `minute` and `second`. Nothing
/// is promised of the fields: they depend on the clock.
#[verifier::external_body]
fn now_utc_fields() -> UtcFields {
    let now = time::OffsetDateTime::now_utc();
    UtcFields {
        year: now.year(),
        month: u8::from(now.month()),
        day: now.day(),
        hour: now.hour(),
        minute: now.minute(),
        second: now.second(),
    }
}

/// Decimal text of `n`, with leading zeros up to width `w`.
pub open spec fn zero_padded(n: nat, w: nat) -> Seq<char> {
    let d = decimal(n);
    if d.len() >= w {
        d
    } else {
        Seq::new((w - d.len()) as nat, |i: int| '0') + d
    }
}

/// A year written with `{:04}`: four digits at least, the sign counted in
/// the width.
pub open spec fn year_text(y: int) -> Seq<char> {
    if y >= 0 {
        zero_padded(y as nat, 4)
    } else {
        "-"@ + zero_padded((-y) as nat, 3)
    }
}

/// The run identifier of a time: `run-YYYY-MM-DD-HHMMSS`.
pub open spec fn session_id_spec(f: UtcFields) -> Seq<char> {
    "run-"@ + year_text(f.year as int) + "-"@ + zero_padded(f.month as nat, 2) + "-"@ + zero_padded(f.day as nat, 2)
        + "-"@ + zero_padded(f.hour as nat, 2) + zero_padded(f.minute as nat, 2) + zero_padded(f.second as nat, 2)
}

/// Decimal text of `n`, with leading zeros up to width `w`.
pub fn zero_padded_string(n: u64, w: usize) -> (r: String)
    ensures
        r@ == zero_padded(n as nat, w as nat),
{
    let d = decimal_string(n);
    let dl = chars_of(d.as_str()).len();
    if dl >= w {
        return d;
    }
    let k = w - dl;
    let mut r = String::new();
    let mut i: usize = 0;
    while i < k
        invariant
            i <= k,
            r@ == Seq::new(i as nat, |j: int| '0'),
        decreases k - i,
    {
        push_char(&mut r, '0');
        assert(r@ =~= Seq::new((i + 1) as nat, |j: int| '0'));
        i += 1;
    }
    push_str(&mut r, d.as_str());
    r
}

/// The run identifier of a time: `run-YYYY-MM-DD-HHMMSS`.
pub fn session_id_from(f: &UtcFields) -> (r: String)
    ensures
        r@ == session_id_spec(*f),
{
    let mut r = owned("run-");
    if f.year >= 0 {
        push_str(&mut r, zero_padded_string(f.year as u64, 4).as_str());
    } else {
        let a: u64 = (0i64 - f.year as i64) as u64;
        push_str(&mut r, "-");
        push_str(&mut r, zero_padded_string(a, 3).as_str());
    }
    push_str(&mut r, "-");
    push_str(&mut r, zero_padded_string(f.month as u64, 2).as_str());
    push_str(&mut r, "-");
    push_str(&mut r, zero_padded_string(f.day as u64, 2).as_str());
    push_str(&mut r, "-");
    push_str(&mut r, zero_padded_string(f.hour as u64, 2).as_str());
    push_str(&mut r, zero_padded_string(f.minute as u64, 2).as_str());
    push_str(&mut r, zero_padded_string(f.second as u64, 2).as_str());
    r
}

/// A run identifier for the current UTC time.
pub(crate) fn generate_session_id() -> (r: String)
    ensures
        exists|f: UtcFields| r@ == session_id_spec(f),
{
    let f = now_utc_fields();
    session_id_from(&f)
}

/// The current UTC time as nanoseconds since the Unix epoch.
///
/// Trusted wrapper around `time::OffsetDateTime::now_utc` and its
/// `unix_timestamp_nanos`. Nothing is promised of the value: it depends on
/// the clock.
#[verifier::external_body]
pub(crate) fn now_unix_nanos() -> i128 {
    time::OffsetDateTime::now_utc().unix_timestamp_nanos()
}

/// The instant, in nanoseconds since the Unix epoch, that an RFC 3339
/// timestamp denotes, or `None` when the text is not RFC 3339.
pub uninterp spec fn rfc3339_instant_nanos(text: Seq<char>) -> Option<int>;

/// Parses an RFC 3339 timestamp.
///
/// Trusted wrapper around `time::OffsetDateTime::parse` with
/// `time::format_description::well_known::Rfc3339`, read back with
/// `unix_timestamp_nanos`. The contract claims only that the result is the
/// value of `rfc3339_instant_nanos` for the text: a function of the text
/// alone.
#[verifier::external_body]
pub(crate) fn parse_rfc3339_nanos(text: &str) -> (r: Option<i128>)
    ensures
        match r {
            Some(n) => rfc3339_instant_nanos(text@) == Some(n as int),
            None => rfc3339_instant_nanos(text@) is None,
        },
{
    match time::OffsetDateTime::parse(text, &time::format_description::well_known::Rfc3339) {
        Ok(t) => Some(t.unix_timestamp_nanos()),
        Err(_) => None,
    }
}

} // verus!
