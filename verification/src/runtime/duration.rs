//! ISO 8601 durations (the supported subset) and decimal numbers.

use vstd::prelude::*;

use crate::text::{chars_of, find_char, find_char_exec, lemma_find_char, push_str, string_of};

verus! {

/// Seconds per minute.
pub const SECS_PER_MINUTE: u64 = 60;

/// Seconds per hour.
pub const SECS_PER_HOUR: u64 = 3600;

/// Seconds per day.
pub const SECS_PER_DAY: u64 = 86400;

/// `c` is an ASCII decimal digit.
pub open spec fn is_digit(c: char) -> bool {
    '0' <= c && c <= '9'
}

/// Value of an ASCII digit.
pub open spec fn digit_value(c: char) -> nat {
    (c as int - '0' as int) as nat
}

/// Every character is an ASCII digit.
pub open spec fn all_digits(s: Seq<char>) -> bool {
    forall|i: int| 0 <= i < s.len() ==> is_digit(#[trigger] s[i])
}

/// Value of a string of decimal digits.
pub open spec fn digits_value(s: Seq<char>) -> nat
    decreases s.len(),
{
    if s.len() == 0 {
        0
    } else {
        digits_value(s.drop_last()) * 10 + digit_value(s.last())
    }
}

/// What `str::parse::<u64>` gives: an optional `+`, then one or more
/// ASCII digits whose value fits in 64 bits.
pub open spec fn parse_u64_spec(s: Seq<char>) -> Option<nat> {
    let body = if s.len() > 0 && s[0] == '+' {
        s.skip(1)
    } else {
        s
    };
    if body.len() == 0 || !all_digits(body) || digits_value(body) > u64::MAX {
        None
    } else {
        Some(digits_value(body))
    }
}

/// Digit values grow when digits are appended.
proof fn lemma_digits_value_grows(s: Seq<char>, i: int)
    requires
        0 <= i <= s.len(),
    ensures
        digits_value(s.take(i)) <= digits_value(s),
    decreases s.len() - i,
{
    if i < s.len() {
        lemma_digits_value_grows(s, i + 1);
        assert(s.take(i + 1).drop_last() =~= s.take(i));
    } else {
        assert(s.take(i) =~= s);
    }
}

/// Parses an unsigned 64-bit decimal number the way `str::parse::<u64>`
/// does.
pub fn parse_u64(s: &[char]) -> (r: Option<u64>)
    ensures
        match r {
            Some(v) => parse_u64_spec(s@) == Some(v as nat),
            None => parse_u64_spec(s@) is None,
        },
{
    let start: usize = if s.len() > 0 && s[0] == '+' {
        1
    } else {
        0
    };
    let ghost body = if s@.len() > 0 && s@[0] == '+' {
        s@.skip(1)
    } else {
        s@
    };
    assert(body =~= s@.skip(start as int));
    if start >= s.len() {
        return None;
    }
    let mut v: u64 = 0;
    let mut i: usize = start;
    while i < s.len()
        invariant
            start <= i <= s@.len(),
            body =~= s@.skip(start as int),
            body == (if s@.len() > 0 && s@[0] == '+' {
                s@.skip(1)
            } else {
                s@
            }),
            all_digits(body.take(i - start)),
            v as nat == digits_value(body.take(i - start)),
        decreases s@.len() - i,
    {
        let c = s[i];
        assert(body[i - start] == c);
        if !('0' <= c && c <= '9') {
            assert(!all_digits(body));
            return None;
        }
        let d = (c as u32 - '0' as u32) as u64;
        assert(d as nat == digit_value(c));
        assert(body.take(i + 1 - start).drop_last() =~= body.take(i - start));
        assert(body.take(i + 1 - start).last() == c);
        assert(digits_value(body.take(i + 1 - start)) == digits_value(body.take(i - start)) * 10 + digit_value(c));
        if v > (u64::MAX - d) / 10 {
            proof {
                assert(digits_value(body.take(i + 1 - start)) == v * 10 + d);
                assert(v * 10 + d > u64::MAX) by (nonlinear_arith)
                    requires
                        v > (u64::MAX - d) / 10,
                        d <= 9,
                ;
                if all_digits(body) {
                    lemma_digits_value_grows(body, i + 1 - start);
                }
            }
            return None;
        }
        proof {
            assert(v * 10 + d <= u64::MAX) by (nonlinear_arith)
                requires
                    v <= (u64::MAX - d) / 10,
                    d <= 9,
            ;
        }
        v = v * 10 + d;
        assert(all_digits(body.take(i + 1 - start))) by {
            assert forall|j: int| 0 <= j < i + 1 - start implies is_digit(#[trigger] body.take(i + 1 - start)[j]) by {
                if j < i - start {
                    assert(body.take(i - start)[j] == body.take(i + 1 - start)[j]);
                }
            }
        }
        i += 1;
    }
    assert(body.take(i - start) =~= body);
    Some(v)
}

/// Why a duration string is refused.
#[derive(Clone, Copy, Debug, PartialEq, Eq, Structural)]
pub enum DurationError {
    /// Does not start with `P`.
    MissingP,
    /// Has years.
    Years,
    /// Has months.
    Months,
    /// The day count is not a number.
    InvalidDays,
    /// The date part is not `{n}D`.
    UnrecognisedDatePart,
    /// Just `P`.
    Empty,
    /// Just `PT` after the date part.
    EmptyTimePart,
    /// Has seconds.
    Seconds,
    /// The hour count is not a number.
    InvalidHours,
    /// The minute count is not a number.
    InvalidMinutes,
    /// Something other than `{n}H` and `{n}M` in the time part.
    UnrecognisedTimeComponent,
    /// The time part has neither hours nor minutes.
    EmptyTimeComponent,
}

impl DurationError {
    /// The message text before the offending input.
    pub open spec fn spec_prefix(self) -> Seq<char> {
        match self {
            DurationError::MissingP => "Duration must start with 'P': "@,
            DurationError::Years => "Years not supported in duration: "@,
            DurationError::Months => "Months not supported in duration: "@,
            DurationError::InvalidDays => "Invalid day count in: "@,
            DurationError::UnrecognisedDatePart => "Unrecognised date part in duration: "@,
            DurationError::Empty => "Empty duration: "@,
            DurationError::EmptyTimePart => "Empty time part in duration: "@,
            DurationError::Seconds => "Seconds not supported in duration: "@,
            DurationError::InvalidHours => "Invalid hour count in: "@,
            DurationError::InvalidMinutes => "Invalid minute count in: "@,
            DurationError::UnrecognisedTimeComponent => "Unrecognised time component in duration: "@,
            DurationError::EmptyTimeComponent => "Empty or unrecognised time part in duration: "@,
        }
    }

    /// The message for this error about `input`.
    pub fn message(&self, input: &str) -> (r: String)
        ensures
            r@ == self.spec_prefix() + input@,
    {
        let p = match self {
            DurationError::MissingP => "Duration must start with 'P': ",
            DurationError::Years => "Years not supported in duration: ",
            DurationError::Months => "Months not supported in duration: ",
            DurationError::InvalidDays => "Invalid day count in: ",
            DurationError::UnrecognisedDatePart => "Unrecognised date part in duration: ",
            DurationError::Empty => "Empty duration: ",
            DurationError::EmptyTimePart => "Empty time part in duration: ",
            DurationError::Seconds => "Seconds not supported in duration: ",
            DurationError::InvalidHours => "Invalid hour count in: ",
            DurationError::InvalidMinutes => "Invalid minute count in: ",
            DurationError::UnrecognisedTimeComponent => "Unrecognised time component in duration: ",
            DurationError::EmptyTimeComponent => "Empty or unrecognised time part in duration: ",
        };
        let mut r = p.to_owned();
        push_str(&mut r, input);
        r
    }
}

/// Hours and minutes of a time part (`{n}H`, `{n}M` or `{n}H{n}M`).
pub open spec fn parse_time_part_spec(tp: Seq<char>) -> Result<(nat, nat), DurationError> {
    let h = find_char(tp, 'H');
    let after_h = match h {
        Some(p) => tp.skip(p + 1),
        None => tp,
    };
    let hours = match h {
        Some(p) => parse_u64_spec(tp.take(p)),
        None => Some(0nat),
    };
    let m = find_char(after_h, 'M');
    let rest = match m {
        Some(p) => after_h.skip(p + 1),
        None => after_h,
    };
    let minutes = match m {
        Some(p) => parse_u64_spec(after_h.take(p)),
        None => Some(0nat),
    };
    if hours is None {
        Err(DurationError::InvalidHours)
    } else if minutes is None {
        Err(DurationError::InvalidMinutes)
    } else if rest.len() > 0 {
        Err(DurationError::UnrecognisedTimeComponent)
    } else if hours->0 == 0 && minutes->0 == 0 && tp != "0H"@ && tp != "0M"@ && !tp.contains('H')
        && !tp.contains('M') {
        Err(DurationError::EmptyTimeComponent)
    } else {
        Ok((hours->0, minutes->0))
    }
}

/// The supported ISO 8601 durations in seconds: `P{n}D`, `PT{n}H`,
/// `PT{n}M` and their combinations `P{n}DT{n}H{n}M`; years, months,
/// seconds and empty parts are refused.
pub open spec fn parse_duration_spec(s: Seq<char>) -> Result<nat, DurationError> {
    if s.len() == 0 || s[0] != 'P' {
        Err(DurationError::MissingP)
    } else {
        let rest = s.skip(1);
        let t = find_char(rest, 'T');
        let date = match t {
            Some(p) => rest.take(p),
            None => rest,
        };
        if date.contains('Y') {
            Err(DurationError::Years)
        } else if date.contains('M') {
            Err(DurationError::Months)
        } else if date.len() > 0 && date.last() != 'D' {
            Err(DurationError::UnrecognisedDatePart)
        } else if date.len() > 0 && parse_u64_spec(date.drop_last()) is None {
            Err(DurationError::InvalidDays)
        } else {
            let days: nat = if date.len() > 0 {
                parse_u64_spec(date.drop_last())->0
            } else {
                0
            };
            match t {
                None => if date.len() == 0 {
                    Err(DurationError::Empty)
                } else {
                    Ok(days * 86400)
                },
                Some(p) => {
                    let tp = rest.skip(p + 1);
                    if tp.len() == 0 {
                        Err(DurationError::EmptyTimePart)
                    } else if tp.contains('S') {
                        Err(DurationError::Seconds)
                    } else {
                        match parse_time_part_spec(tp) {
                            Err(e) => Err(e),
                            Ok((h, m)) => Ok(days * 86400 + h * 3600 + m * 60),
                        }
                    }
                },
            }
        }
    }
}

/// The arithmetic on a duration leaves 64 bits: the day count alone, or
/// the full total, does not fit.
pub open spec fn duration_overflows(s: Seq<char>) -> bool {
    let rest = s.skip(1);
    let t = find_char(rest, 'T');
    let date = match t {
        Some(p) => rest.take(p),
        None => rest,
    };
    let days: nat = if date.len() > 0 && parse_u64_spec(date.drop_last()) is Some {
        parse_u64_spec(date.drop_last())->0
    } else {
        0
    };
    ||| (s.len() > 0 && s[0] == 'P' && !date.contains('Y') && !date.contains('M') && days * 86400 > u64::MAX)
    ||| (parse_duration_spec(s) matches Ok(v) && v > u64::MAX)
}

/// Whether a character slice contains `c`.
fn contains_char(s: &[char], c: char) -> (r: bool)
    ensures
        r == s@.contains(c),
{
    match find_char_exec(s, c) {
        Some(i) => {
            assert(s@[i as int] == c);
            true
        },
        None => false,
    }
}

/// Splits the time part of a duration (after `T`) into hours and minutes.
pub fn parse_time_part(time_part: &[char]) -> (r: Result<(u64, u64), DurationError>)
    ensures
        match r {
            Ok((h, m)) => parse_time_part_spec(time_part@) == Ok::<(nat, nat), DurationError>((h as nat, m as nat)),
            Err(e) => parse_time_part_spec(time_part@) == Err::<(nat, nat), DurationError>(e),
        },
{
    let mut hours: u64 = 0;
    let mut minutes: u64 = 0;
    let n = time_part.len();
    let mut remaining: &[char] = time_part;
    match find_char_exec(time_part, 'H') {
        Some(p) => {
            proof {
                assert(time_part@[p as int] == 'H');
            }
            let hs: &[char] = &time_part[0..p];
            assert(hs@ =~= time_part@.take(p as int));
            match parse_u64(hs) {
                Some(v) => hours = v,
                None => return Err(DurationError::InvalidHours),
            }
            remaining = &time_part[p + 1..time_part.len()];
            assert(remaining@ =~= time_part@.skip(p + 1));
        },
        None => {},
    }
    let after_h = remaining;
    let nh = after_h.len();
    match find_char_exec(after_h, 'M') {
        Some(p) => {
            proof {
                assert(after_h@[p as int] == 'M');
            }
            let ms: &[char] = &after_h[0..p];
            assert(ms@ =~= after_h@.take(p as int));
            match parse_u64(ms) {
                Some(v) => minutes = v,
                None => return Err(DurationError::InvalidMinutes),
            }
            remaining = &after_h[p + 1..after_h.len()];
            assert(remaining@ =~= after_h@.skip(p + 1));
        },
        None => {},
    }
    if remaining.len() > 0 {
        return Err(DurationError::UnrecognisedTimeComponent);
    }
    if hours == 0 && minutes == 0 {
        let is_0h = time_part.len() == 2 && time_part[0] == '0' && time_part[1] == 'H';
        let is_0m = time_part.len() == 2 && time_part[0] == '0' && time_part[1] == 'M';
        proof {
            reveal_strlit("0H");
            reveal_strlit("0M");
            if time_part@.len() == 2 {
                assert(is_0h == (time_part@ =~= "0H"@));
                assert(is_0m == (time_part@ =~= "0M"@));
            } else {
                assert(time_part@.len() != "0H"@.len());
                assert(time_part@.len() != "0M"@.len());
            }
        }
        if !is_0h && !is_0m && !contains_char(time_part, 'H') && !contains_char(time_part, 'M') {
            return Err(DurationError::EmptyTimeComponent);
        }
    }
    Ok((hours, minutes))
}

/// Parses a duration in the supported ISO 8601 subset into seconds.
pub fn parse_iso8601_duration(input: &str) -> (r: Result<u64, DurationError>)
    requires
        !duration_overflows(input@),
    ensures
        match r {
            Ok(v) => parse_duration_spec(input@) == Ok::<nat, DurationError>(v as nat),
            Err(e) => parse_duration_spec(input@) == Err::<nat, DurationError>(e),
        },
{
    let s = chars_of(input);
    if s.len() == 0 || s[0] != 'P' {
        return Err(DurationError::MissingP);
    }
    let rest: &[char] = &s.as_slice()[1..s.len()];
    assert(rest@ =~= input@.skip(1));
    let t = find_char_exec(rest, 'T');
    let date: &[char] = match t {
        Some(p) => {
            proof {
                assert(rest@[p as int] == 'T');
            }
            &rest[0..p]
        },
        None => rest,
    };
    assert(date@ =~= (match find_char(rest@, 'T') {
        Some(p) => rest@.take(p),
        None => rest@,
    }));
    if contains_char(date, 'Y') {
        return Err(DurationError::Years);
    }
    if contains_char(date, 'M') {
        return Err(DurationError::Months);
    }
    let mut total: u64 = 0;
    if date.len() > 0 {
        if date[date.len() - 1] != 'D' {
            return Err(DurationError::UnrecognisedDatePart);
        }
        let ds: &[char] = &date[0..date.len() - 1];
        assert(ds@ =~= date@.drop_last());
        match parse_u64(ds) {
            None => return Err(DurationError::InvalidDays),
            Some(days) => {
                total = days * SECS_PER_DAY;
            },
        }
    }
    match t {
        None => {
            if date.len() == 0 {
                return Err(DurationError::Empty);
            }
        },
        Some(p) => {
            let tp: &[char] = &rest[p + 1..rest.len()];
            assert(tp@ =~= rest@.skip(p + 1));
            if tp.len() == 0 {
                return Err(DurationError::EmptyTimePart);
            }
            if contains_char(tp, 'S') {
                return Err(DurationError::Seconds);
            }
            let (hours, minutes) = parse_time_part(tp)?;
            total = total + hours * SECS_PER_HOUR + minutes * SECS_PER_MINUTE;
        },
    }
    Ok(total)
}

/// Decimal digits of a number, most significant first.
pub open spec fn decimal(n: nat) -> Seq<char>
    decreases n,
{
    if n < 10 {
        seq![(n + '0' as nat) as char]
    } else {
        decimal(n / 10).push(((n % 10) + '0' as nat) as char)
    }
}

/// The decimal representation of `n`.
pub fn decimal_string(n: u64) -> (r: String)
    ensures
        r@ == decimal(n as nat),
    decreases n,
{
    if n < 10 {
        let c = ((n as u8) + 48u8) as char;
        let v: Vec<char> = vec![c];
        assert(v@ =~= decimal(n as nat));
        string_of(v.as_slice())
    } else {
        let mut r = decimal_string(n / 10);
        let c = (((n % 10) as u8) + 48u8) as char;
        crate::text::push_char(&mut r, c);
        r
    }
}

} // verus!
