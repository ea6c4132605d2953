//! Time parsing and rendering shared by the command line and the tool server: relative
//! forms (`7d`, `24h`, `30m`, `2w`), absolute timestamps and dates, and ages in words.

use vstd::prelude::*;
use crate::error::Error;
use crate::planner::{decimal, decimal_of};
use crate::text::{chars_of, is_ascii_alpha, is_digit, push_str, same_text, string_of_range, trim, trimmed};

verus! {

/// An instant: whole seconds since the Unix epoch and the nanoseconds within that second
/// (negative before the epoch, as `jiff::Timestamp` reports them).
#[derive(Debug, Clone, Copy, PartialEq, Eq, Structural)]
pub struct Stamp {
    /// Seconds since 1970-01-01T00:00:00Z.
    pub second: i64,
    /// Nanoseconds within the second, with the sign of the instant.
    pub nanosecond: i32,
}

/// The range of `jiff::Timestamp` (`Timestamp::MIN` to `Timestamp::MAX`).
pub open spec fn stamp_ok(t: Stamp) -> bool {
    &&& -377_705_023_201 <= t.second <= 253_402_207_200
    &&& -999_999_999 <= t.nanosecond <= 999_999_999
}

/// The largest number of minutes a `jiff::Span` holds (`Span::try_minutes` documents it).
pub open spec fn span_minutes_max() -> int {
    10_518_456_960
}

/// The largest number of hours a `jiff::Span` holds (`Span::try_hours` documents it).
pub open spec fn span_hours_max() -> int {
    175_307_616
}

/// What `s.parse::<jiff::Timestamp>()` gives, as seconds and nanoseconds, if it succeeds.
pub uninterp spec fn jiff_timestamp_of(s: Seq<char>) -> Option<(i64, i32)>;

/// What `s.parse::<jiff::civil::Date>()` followed by `to_zoned(TimeZone::UTC)` gives: `None`
/// when `s` is not a date, `Some(None)` when its midnight is outside the timestamp range,
/// else the seconds of that midnight.
pub uninterp spec fn utc_day_start_of(s: Seq<char>) -> Option<Option<i64>>;

/// An instant as one number: nanoseconds since the Unix epoch.
pub open spec fn stamp_nanos(t: Stamp) -> int {
    t.second * 1_000_000_000 + t.nanosecond
}

/// Reads the clock with `SystemTime::now()` and converts it with
/// `Timestamp::try_from(SystemTime)`, which fails (rather than panicking, as
/// `Timestamp::now()` would) when the system clock is outside the range of a timestamp. The
/// contract states that range and nothing else: the value is the clock's.
#[verifier::external_body]
fn now_stamp() -> (r: Option<Stamp>)
    ensures
        r matches Some(t) ==> stamp_ok(t),
{
    let t = jiff::Timestamp::try_from(std::time::SystemTime::now()).ok()?;
    Some(Stamp { second: t.as_second(), nanosecond: t.subsec_nanosecond() })
}

/// Builds the timestamp `now` with `Timestamp::new`, the span with `Span::try_minutes(n)`,
/// and subtracts it with `Timestamp::checked_sub`. `try_minutes` documents its limit, which
/// the contract states; `checked_sub` subtracts the span's whole duration or fails when the
/// result is outside the timestamp range. Which instants are in range at the edges is left
/// unstated: a result, when there is one, is stated exactly.
#[verifier::external_body]
fn minutes_before(now: Stamp, n: i64) -> (r: Option<Stamp>)
    requires
        stamp_ok(now),
    ensures
        (n > span_minutes_max() || n < -span_minutes_max()) ==> r is None,
        r matches Some(t) ==> stamp_ok(t) && stamp_nanos(t) == stamp_nanos(now) - n * 60_000_000_000,
{
    let t = jiff::Timestamp::new(now.second, now.nanosecond).ok()?;
    let span = jiff::Span::new().try_minutes(n).ok()?;
    let r = t.checked_sub(span).ok()?;
    Some(Stamp { second: r.as_second(), nanosecond: r.subsec_nanosecond() })
}

/// As [`minutes_before`], with `Span::try_hours(n)`.
#[verifier::external_body]
fn hours_before(now: Stamp, n: i64) -> (r: Option<Stamp>)
    requires
        stamp_ok(now),
    ensures
        (n > span_hours_max() || n < -span_hours_max()) ==> r is None,
        r matches Some(t) ==> stamp_ok(t) && stamp_nanos(t) == stamp_nanos(now) - n * 3_600_000_000_000,
{
    let t = jiff::Timestamp::new(now.second, now.nanosecond).ok()?;
    let span = jiff::Span::new().try_hours(n).ok()?;
    let r = t.checked_sub(span).ok()?;
    Some(Stamp { second: r.as_second(), nanosecond: r.subsec_nanosecond() })
}

/// Calls `str::parse::<jiff::Timestamp>` (RFC 3339 and Temporal forms with an offset). The
/// contract names the result and states that a timestamp is in range.
#[verifier::external_body]
fn parse_timestamp(s: &str) -> (r: Option<Stamp>)
    ensures
        match jiff_timestamp_of(s@) {
            Some(p) => r == Some(Stamp { second: p.0, nanosecond: p.1 }),
            None => r is None,
        },
        r matches Some(t) ==> stamp_ok(t),
{
    let t = s.parse::<jiff::Timestamp>().ok()?;
    Some(Stamp { second: t.as_second(), nanosecond: t.subsec_nanosecond() })
}

/// Calls `str::parse::<jiff::civil::Date>` and, for a date, `Date::to_zoned` with
/// `TimeZone::UTC`, keeping the seconds of that instant. The contract names the result.
#[verifier::external_body]
fn parse_day_start(s: &str) -> (r: Option<Option<i64>>)
    ensures
        r == utc_day_start_of(s@),
{
    match s.parse::<jiff::civil::Date>() {
        Ok(date) => Some(date.to_zoned(jiff::tz::TimeZone::UTC).ok().map(|z| z.timestamp().as_second())),
        Err(_) => None,
    }
}

/// The number of leading ASCII digits of `s`.
pub open spec fn leading_digits(s: Seq<char>) -> nat
    decreases s.len(),
{
    if s.len() > 0 && is_digit(s[0]) {
        1 + leading_digits(s.drop_first())
    } else {
        0
    }
}

/// A relative form split into its number and its unit: one or more ASCII digits followed by
/// one or more ASCII letters, and nothing else.
pub open spec fn split_relative_of(s: Seq<char>) -> Option<(Seq<char>, Seq<char>)> {
    let d = leading_digits(s) as int;
    if d == 0 || d == s.len() {
        None
    } else if forall|i: int| d <= i < s.len() ==> is_ascii_alpha(#[trigger] s[i]) {
        Some((s.take(d), s.skip(d)))
    } else {
        None
    }
}

/// `leading_digits(s)` counts a prefix of digits, and stops at a non-digit or the end.
proof fn lemma_leading_digits(s: Seq<char>)
    ensures
        leading_digits(s) <= s.len(),
        forall|i: int| 0 <= i < leading_digits(s) ==> is_digit(#[trigger] s[i]),
        leading_digits(s) < s.len() ==> !is_digit(s[leading_digits(s) as int]),
    decreases s.len(),
{
    if s.len() > 0 && is_digit(s[0]) {
        lemma_leading_digits(s.drop_first());
        assert forall|i: int| 0 <= i < leading_digits(s) implies is_digit(#[trigger] s[i]) by {
            if i > 0 {
                assert(s[i] == s.drop_first()[i - 1]);
            }
        }
    }
}

/// Split a relative time into its number and unit (`"90m"` into `"90"` and `"m"`).
pub fn split_relative(s: &str) -> (r: Option<(String, String)>)
    ensures
        match split_relative_of(s@) {
            Some(p) => r matches Some(q) && q.0@ == p.0 && q.1@ == p.1,
            None => r is None,
        },
{
    let v = chars_of(s);
    proof {
        lemma_leading_digits(s@);
    }
    let mut d: usize = 0;
    while d < v.len() && v[d] >= '0' && v[d] <= '9'
        invariant
            d <= v.len(),
            v@ == s@,
            d <= leading_digits(s@),
            leading_digits(s@) <= s@.len(),
            forall|i: int| 0 <= i < leading_digits(s@) ==> is_digit(#[trigger] s@[i]),
            leading_digits(s@) < s@.len() ==> !is_digit(s@[leading_digits(s@) as int]),
        decreases v.len() - d,
    {
        d = d + 1;
    }
    assert(d == leading_digits(s@));
    if d == 0 || d == v.len() {
        return None;
    }
    let mut k: usize = d;
    while k < v.len() && ((v[k] >= 'a' && v[k] <= 'z') || (v[k] >= 'A' && v[k] <= 'Z'))
        invariant
            d <= k <= v.len(),
            v@ == s@,
            forall|i: int| d <= i < k ==> is_ascii_alpha(#[trigger] s@[i]),
        decreases v.len() - k,
    {
        k = k + 1;
    }
    if k < v.len() {
        assert(!is_ascii_alpha(s@[k as int]));
        return None;
    }
    let num = string_of_range(&v, 0, d);
    let unit = string_of_range(&v, d, v.len());
    assert(s@.subrange(0, d as int) =~= s@.take(d as int));
    assert(s@.subrange(d as int, s@.len() as int) =~= s@.skip(d as int));
    Some((num, unit))
}

/// The value of a string of ASCII digits.
pub open spec fn decimal_value(s: Seq<char>) -> nat
    decreases s.len(),
{
    if s.len() == 0 {
        0
    } else {
        decimal_value(s.drop_last()) * 10 + ((s.last() as int) - ('0' as int)) as nat
    }
}

/// A longer prefix of digits has at least the value of a shorter one.
proof fn lemma_decimal_value_grows(s: Seq<char>, i: int, j: int)
    requires
        0 <= i <= j <= s.len(),
        forall|k: int| 0 <= k < s.len() ==> is_digit(#[trigger] s[k]),
    ensures
        decimal_value(s.take(i)) <= decimal_value(s.take(j)),
    decreases j - i,
{
    if i < j {
        lemma_decimal_value_grows(s, i, j - 1);
        assert(s.take(j).drop_last() =~= s.take(j - 1));
    }
}

/// `str::parse::<i64>` on a string of ASCII digits: its value, or `None` when it exceeds
/// `i64::MAX`.
fn digits_value(num: &str) -> (r: Option<i64>)
    requires
        forall|k: int| 0 <= k < num@.len() ==> is_digit(#[trigger] num@[k]),
    ensures
        match r {
            Some(n) => n == decimal_value(num@),
            None => decimal_value(num@) > i64::MAX,
        },
{
    let v = chars_of(num);
    let mut acc: u64 = 0;
    let mut i: usize = 0;
    assert(num@.take(0) =~= Seq::<char>::empty());
    while i < v.len()
        invariant
            i <= v.len(),
            v@ == num@,
            forall|k: int| 0 <= k < num@.len() ==> is_digit(#[trigger] num@[k]),
            acc == decimal_value(num@.take(i as int)),
            acc <= i64::MAX,
        decreases v.len() - i,
    {
        let c = v[i];
        assert(is_digit(num@[i as int]));
        let d: u64 = if c == '0' { 0 } else if c == '1' { 1 } else if c == '2' { 2 } else if c
            == '3' { 3 } else if c == '4' { 4 } else if c == '5' { 5 } else if c == '6' { 6 } else if c
            == '7' { 7 } else if c == '8' { 8 } else { 9 };
        assert(d == (c as int) - ('0' as int));
        assert(num@.take(i + 1).drop_last() =~= num@.take(i as int));
        assert(decimal_value(num@.take(i + 1)) == acc * 10 + d);
        if acc > (9_223_372_036_854_775_807u64 - d) / 10 {
            proof {
                lemma_decimal_value_grows(num@, i + 1, num@.len() as int);
                assert(num@.take(num@.len() as int) =~= num@);
            }
            return None;
        }
        acc = acc * 10 + d;
        i = i + 1;
    }
    assert(num@.take(num@.len() as int) =~= num@);
    Some(acc as i64)
}

/// The unit of a relative time.
#[derive(Debug, Clone, Copy, PartialEq, Eq, Structural)]
pub enum RelUnit {
    /// `m`, `min`.
    Minutes,
    /// `h`, `hr`, `hour`, `hours`.
    Hours,
    /// `d`, `day`, `days`.
    Days,
    /// `w`, `week`, `weeks`.
    Weeks,
}

/// The unit a relative time names, if any.
pub open spec fn unit_of(u: Seq<char>) -> Option<RelUnit> {
    if u == "m"@ || u == "min"@ {
        Some(RelUnit::Minutes)
    } else if u == "h"@ || u == "hr"@ || u == "hour"@ || u == "hours"@ {
        Some(RelUnit::Hours)
    } else if u == "d"@ || u == "day"@ || u == "days"@ {
        Some(RelUnit::Days)
    } else if u == "w"@ || u == "week"@ || u == "weeks"@ {
        Some(RelUnit::Weeks)
    } else {
        None
    }
}

fn unit(u: &str) -> (r: Option<RelUnit>)
    ensures
        r == unit_of(u@),
{
    if same_text(u, "m") || same_text(u, "min") {
        Some(RelUnit::Minutes)
    } else if same_text(u, "h") || same_text(u, "hr") || same_text(u, "hour") || same_text(u, "hours") {
        Some(RelUnit::Hours)
    } else if same_text(u, "d") || same_text(u, "day") || same_text(u, "days") {
        Some(RelUnit::Days)
    } else if same_text(u, "w") || same_text(u, "week") || same_text(u, "weeks") {
        Some(RelUnit::Weeks)
    } else {
        None
    }
}

/// How far back a relative time reaches, before the clock is read.
#[derive(Debug, Clone, Copy, PartialEq, Eq, Structural)]
pub enum Lookback {
    /// This many minutes.
    Minutes(i64),
    /// This many hours (days and weeks count as 24 and 168 hours).
    Hours(i64),
}

/// The span a relative time names: `None` when `t` is not a relative form, `Some(None)`
/// when its number does not fit an `i64`, its unit is unknown, or its hours overflow.
pub open spec fn span_of(t: Seq<char>) -> Option<Option<Lookback>> {
    match split_relative_of(t) {
        None => None,
        Some(p) => {
            let n = decimal_value(p.0);
            Some(
                if n > i64::MAX {
                    None
                } else {
                    match unit_of(p.1) {
                        None => None,
                        Some(RelUnit::Minutes) => Some(Lookback::Minutes(n as i64)),
                        Some(RelUnit::Hours) => Some(Lookback::Hours(n as i64)),
                        Some(RelUnit::Days) => if n * 24 > i64::MAX {
                            None
                        } else {
                            Some(Lookback::Hours((n * 24) as i64))
                        },
                        Some(RelUnit::Weeks) => if n * 168 > i64::MAX {
                            None
                        } else {
                            Some(Lookback::Hours((n * 168) as i64))
                        },
                    }
                },
            )
        },
    }
}

/// The span of a (trimmed) relative time, without reading the clock; see [`span_of`].
pub fn relative_span(t: &str) -> (r: Option<Option<Lookback>>)
    ensures
        r == span_of(t@),
{
    let parts = split_relative(t);
    match parts {
        None => None,
        Some(p) => {
            proof {
                lemma_leading_digits(t@);
                let d = leading_digits(t@) as int;
                assert forall|k: int| 0 <= k < p.0@.len() implies is_digit(#[trigger] p.0@[k]) by {
                    assert(p.0@[k] == t@[k]);
                }
            }
            let n = match digits_value(p.0.as_str()) {
                Some(n) => n,
                None => {
                    return Some(None);
                },
            };
            match unit(p.1.as_str()) {
                None => Some(None),
                Some(RelUnit::Minutes) => Some(Some(Lookback::Minutes(n))),
                Some(RelUnit::Hours) => Some(Some(Lookback::Hours(n))),
                Some(RelUnit::Days) => {
                    if n > i64::MAX / 24 {
                        Some(None)
                    } else {
                        Some(Some(Lookback::Hours(n * 24)))
                    }
                },
                Some(RelUnit::Weeks) => {
                    if n > i64::MAX / 168 {
                        Some(None)
                    } else {
                        Some(Some(Lookback::Hours(n * 168)))
                    }
                },
            }
        },
    }
}

/// The error of every time that cannot be read.
fn bad_time(s: &str, why: &str) -> (e: Error)
    ensures
        e matches Error::Config(m) && m@ == why@ + " \""@ + s@ + "\""@,
{
    let mut m = String::new();
    push_str(&mut m, why);
    push_str(&mut m, " \"");
    push_str(&mut m, s);
    push_str(&mut m, "\"");
    Error::Config(m)
}

/// Parse `7d`, `24h`, `30m`, `2w`, or an ISO date/time into an absolute time.
///
/// Relative forms count back from now (the clock decides the instant; an error comes back
/// only where the span is beyond `jiff`'s limits or the result before the earliest
/// timestamp); `YYYY-MM-DD` means midnight UTC of that day. Every other input is a
/// configuration error, never a panic.
pub fn parse_time(s: &str) -> (r: Result<Stamp, Error>)
    ensures
        match span_of(trim(s@)) {
            Some(None) => r matches Err(Error::Config(_)),
            Some(Some(Lookback::Minutes(n))) => {
                &&& (n > span_minutes_max() ==> r matches Err(Error::Config(_)))
                &&& (r matches Ok(t) ==> stamp_ok(t) && exists|now: Stamp| #[trigger] stamp_ok(now) && stamp_nanos(t)
                    == stamp_nanos(now) - n * 60_000_000_000)
                &&& (r is Err ==> r matches Err(Error::Config(_)))
            },
            Some(Some(Lookback::Hours(n))) => {
                &&& (n > span_hours_max() ==> r matches Err(Error::Config(_)))
                &&& (r matches Ok(t) ==> stamp_ok(t) && exists|now: Stamp| #[trigger] stamp_ok(now) && stamp_nanos(t)
                    == stamp_nanos(now) - n * 3_600_000_000_000)
                &&& (r is Err ==> r matches Err(Error::Config(_)))
            },
            None => match jiff_timestamp_of(trim(s@)) {
                Some(p) => r == Ok::<Stamp, Error>(Stamp { second: p.0, nanosecond: p.1 }),
                None => match utc_day_start_of(trim(s@)) {
                    Some(Some(sec)) => r == Ok::<Stamp, Error>(Stamp { second: sec, nanosecond: 0 }),
                    _ => r matches Err(Error::Config(_)),
                },
            },
        },
{
    let t = trimmed(s);
    match relative_span(t.as_str()) {
        Some(None) => Err(bad_time(t.as_str(), "cannot read the span in")),
        Some(Some(Lookback::Minutes(n))) => match now_stamp() {
            Some(now) => match minutes_before(now, n) {
                Some(st) => Ok(st),
                None => Err(bad_time(t.as_str(), "too far back:")),
            },
            None => Err(bad_time(t.as_str(), "the system clock is out of range for")),
        },
        Some(Some(Lookback::Hours(n))) => match now_stamp() {
            Some(now) => match hours_before(now, n) {
                Some(st) => Ok(st),
                None => Err(bad_time(t.as_str(), "too far back:")),
            },
            None => Err(bad_time(t.as_str(), "the system clock is out of range for")),
        },
        None => {
            if let Some(st) = parse_timestamp(t.as_str()) {
                return Ok(st);
            }
            match parse_day_start(t.as_str()) {
                Some(Some(sec)) => Ok(Stamp { second: sec, nanosecond: 0 }),
                Some(None) => Err(bad_time(t.as_str(), "date out of range:")),
                None => Err(
                    bad_time(t.as_str(), "not a duration (7d, 24h) or a date (2026-09-21):"),
                ),
            }
        },
    }
}

/// An age in words: `just now` under a minute, else the whole number of the largest unit
/// that fits (minutes, hours, days, 30-day months, 365-day years) and `ago`. A negative
/// age counts as none.
pub open spec fn age_phrase_of(secs: int) -> Seq<char> {
    let s = if secs < 0 { 0 } else { secs };
    if s < 60 {
        "just now"@
    } else {
        let n = if s < 3_600 {
            s / 60
        } else if s < 86_400 {
            s / 3_600
        } else if s < 2_592_000 {
            s / 86_400
        } else if s < 31_536_000 {
            s / 2_592_000
        } else {
            s / 31_536_000
        };
        let unit = if s < 3_600 {
            "min"@
        } else if s < 86_400 {
            "hour"@
        } else if s < 2_592_000 {
            "day"@
        } else if s < 31_536_000 {
            "month"@
        } else {
            "year"@
        };
        decimal_of(n as nat) + " "@ + unit + (if n == 1 { ""@ } else { "s"@ }) + " ago"@
    }
}

/// The words for an age of `secs` seconds; see [`age_phrase_of`].
pub fn age_phrase(secs: i64) -> (r: String)
    ensures
        r@ == age_phrase_of(secs as int),
{
    let s: i64 = if secs < 0 { 0 } else { secs };
    if s < 60 {
        let mut r = String::new();
        push_str(&mut r, "just now");
        return r;
    }
    let (n, unit): (i64, &str) = if s < 3_600 {
        (s / 60, "min")
    } else if s < 86_400 {
        (s / 3_600, "hour")
    } else if s < 2_592_000 {
        (s / 86_400, "day")
    } else if s < 31_536_000 {
        (s / 2_592_000, "month")
    } else {
        (s / 31_536_000, "year")
    };
    let mut r = decimal(n as u64);
    push_str(&mut r, " ");
    push_str(&mut r, unit);
    if n != 1 {
        push_str(&mut r, "s");
    }
    push_str(&mut r, " ago");
    proof {
        reveal_strlit("just now");
        reveal_strlit(" ");
        reveal_strlit("s");
        reveal_strlit("");
        reveal_strlit(" ago");
        reveal_strlit("min");
        reveal_strlit("hour");
        reveal_strlit("day");
        reveal_strlit("month");
        reveal_strlit("year");
    }
    if n == 1 {
        assert(r@ =~= decimal_of(n as nat) + " "@ + unit@ + ""@ + " ago"@);
    } else {
        assert(r@ =~= decimal_of(n as nat) + " "@ + unit@ + "s"@ + " ago"@);
    }
    r
}

/// What [`humanize_age`] says when the system clock cannot be read.
pub const AGE_UNKNOWN: &'static str = "age unknown";

/// `2 days ago`, `3 hours ago`, `just now`: the age of `ts` by the clock, in words (see
/// [`age_phrase_of`]), or [`AGE_UNKNOWN`] when the clock is outside the range of a timestamp.
pub fn humanize_age(ts: Stamp) -> (r: String)
    requires
        stamp_ok(ts),
    ensures
        (exists|now: Stamp| #[trigger] stamp_ok(now) && r@ == age_phrase_of(now.second - ts.second))
            || r@ == AGE_UNKNOWN@,
{
    match now_stamp() {
        Some(now) => {
            let r = age_phrase(now.second - ts.second);
            assert(stamp_ok(now) && r@ == age_phrase_of(now.second - ts.second));
            r
        },
        None => AGE_UNKNOWN.to_string(),
    }
}

} // verus!
