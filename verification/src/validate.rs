//! Enforce the card contract on what the model returned.
//!
//! - **Caps.** Lists longer than the contract are trimmed, strings are bounded, keywords are
//!   lower-cased and de-duplicated. Trimming is not a failure.
//! - **Grounding.** Every mentioned date must quote evidence that occurs in the section, and
//!   every entity must occur in the section. Anything that does not is dropped and reported.
//!   Comparison happens after [`normalize`].
//! - **Rejection** only for a card with no `tldr` or no `summary`.

use vstd::prelude::*;
use crate::card::{DatePrecision, Entities, MentionedDate, SectionSummary};
use crate::error::Error;
use crate::text::{
    chars_of, clip, clip_of, contains_seq, contains_str, contains_string, is_digit, is_whitespace, is_ws, lowercase_of,
    push_char, push_str, string_of_range, texts, to_lower, trim, trimmed,
};

verus! {

// ---------------------------------------------------------------- typography folding

/// A typographic character that [`normalize`] replaces.
pub open spec fn is_typographic(c: char) -> bool {
    let u = c as u32;
    ||| u == 0x2018 || u == 0x2019 || u == 0x201A || u == 0x2032 || u == 0x02BC
    ||| u == 0x201C || u == 0x201D || u == 0x201E || u == 0x2033
    ||| (0x2010 <= u && u <= 0x2015) || u == 0x2212
    ||| u == 0x2026
}

/// What a typographic character becomes: curly single quotes and primes `'`, curly double
/// quotes `"`, dashes and minus `-`, the ellipsis `...`.
pub open spec fn folded(c: char) -> Seq<char> {
    let u = c as u32;
    if u == 0x2018 || u == 0x2019 || u == 0x201A || u == 0x2032 || u == 0x02BC {
        seq!['\'']
    } else if u == 0x201C || u == 0x201D || u == 0x201E || u == 0x2033 {
        seq!['"']
    } else if u == 0x2026 {
        seq!['.', '.', '.']
    } else {
        seq!['-']
    }
}

/// `out`, followed by one space when a whitespace run is pending and something precedes it.
pub open spec fn with_pending_space(out: Seq<char>, pending: bool) -> Seq<char> {
    if pending && out.len() > 0 {
        out.push(' ')
    } else {
        out
    }
}

/// The state of [`normalize`] after reading `s`: the output so far and whether a whitespace
/// run is pending.
pub open spec fn normalize_state(s: Seq<char>) -> (Seq<char>, bool)
    decreases s.len(),
{
    if s.len() == 0 {
        (Seq::empty(), false)
    } else {
        let (out, pending) = normalize_state(s.drop_last());
        let c = s.last();
        if is_typographic(c) {
            (with_pending_space(out, pending) + folded(c), false)
        } else if is_ws(c) {
            (out, true)
        } else {
            (with_pending_space(out, pending).push(c), false)
        }
    }
}

/// `s` with typography folded and every whitespace run collapsed to one space, none leading
/// or trailing.
pub open spec fn normalize_of(s: Seq<char>) -> Seq<char> {
    normalize_state(s).0
}

/// Fold typographic variants the model tends to straighten, and collapse whitespace.
///
/// Curly quotes → straight, en/em dashes → `-`, ellipsis → `...`, non-breaking and other
/// Unicode spaces → space, runs of whitespace → one space. Case is preserved.
pub fn normalize(s: &str) -> (r: String)
    ensures
        r@ == normalize_of(s@),
{
    let v = chars_of(s);
    let mut out = String::new();
    let mut pending = false;
    let mut i: usize = 0;
    while i < v.len()
        invariant
            0 <= i <= v.len(),
            (out@, pending) == normalize_state(v@.take(i as int)),
        decreases v.len() - i,
    {
        let c = v[i];
        proof {
            assert(v@.take(i + 1).drop_last() =~= v@.take(i as int));
            assert(v@.take(i + 1).last() == c);
        }
        let u = c as u32;
        let typographic = u == 0x2018 || u == 0x2019 || u == 0x201A || u == 0x2032 || u == 0x02BC
            || u == 0x201C || u == 0x201D || u == 0x201E || u == 0x2033 || (0x2010 <= u && u
            <= 0x2015) || u == 0x2212 || u == 0x2026;
        if typographic {
            if pending && !out.as_str().is_empty() {
                push_char(&mut out, ' ');
            }
            pending = false;
            if u == 0x2018 || u == 0x2019 || u == 0x201A || u == 0x2032 || u == 0x02BC {
                push_char(&mut out, '\'');
            } else if u == 0x201C || u == 0x201D || u == 0x201E || u == 0x2033 {
                push_char(&mut out, '"');
            } else if u == 0x2026 {
                push_char(&mut out, '.');
                push_char(&mut out, '.');
                push_char(&mut out, '.');
            } else {
                push_char(&mut out, '-');
            }
        } else if is_whitespace(c) {
            pending = true;
        } else {
            if pending && !out.as_str().is_empty() {
                push_char(&mut out, ' ');
            }
            pending = false;
            push_char(&mut out, c);
        }
        i = i + 1;
    }
    assert(v@.take(v.len() as int) =~= v@);
    out
}

} // verus!

verus! {

// ---------------------------------------------------------------- date shapes

/// The value of an ASCII digit.
pub open spec fn digit_value(c: char) -> int {
    (c as u32) - ('0' as u32)
}

/// Every character is an ASCII digit.
pub open spec fn all_digits(s: Seq<char>) -> bool {
    forall|i: int| 0 <= i < s.len() ==> is_digit(#[trigger] s[i])
}

/// Four ASCII digits reading a number from 1000 to 2999.
pub open spec fn is_year_of(s: Seq<char>) -> bool {
    &&& s.len() == 4
    &&& all_digits(s)
    &&& 1000 <= digit_value(s[0]) * 1000 + digit_value(s[1]) * 100 + digit_value(s[2]) * 10
        + digit_value(s[3]) <= 2999
}

/// `YYYY-MM` with a year (see [`is_year_of`]) and a month from 1 to 12.
pub open spec fn is_year_month_of(s: Seq<char>) -> bool {
    &&& s.len() == 7
    &&& is_year_of(s.take(4))
    &&& s[4] == '-'
    &&& is_digit(s[5]) && is_digit(s[6])
    &&& 1 <= digit_value(s[5]) * 10 + digit_value(s[6]) <= 12
}

/// Whether `jiff` parses `s` as a civil date (`s.parse::<jiff::civil::Date>()` is `Ok`).
pub open spec fn jiff_parses_date(s: Seq<char>) -> bool {
    crate::timefmt::utc_day_start_of(s) is Some
}

/// The two-digit number at positions `i` and `i + 1` of `s`.
pub open spec fn two_digits(s: Seq<char>, i: int) -> int {
    digit_value(s[i]) * 10 + digit_value(s[i + 1])
}

/// Ten characters written `DDDD-DD-DD`, each `D` an ASCII digit.
pub open spec fn ymd_shape(s: Seq<char>) -> bool {
    &&& s.len() == 10
    &&& s[4] == '-' && s[7] == '-'
    &&& is_digit(s[0]) && is_digit(s[1]) && is_digit(s[2]) && is_digit(s[3])
    &&& is_digit(s[5]) && is_digit(s[6]) && is_digit(s[8]) && is_digit(s[9])
}

/// A leap year of the proleptic Gregorian calendar.
pub open spec fn is_leap_year(y: int) -> bool {
    y % 4 == 0 && (y % 100 != 0 || y % 400 == 0)
}

/// The number of days of month `m` (1 to 12) of year `y`.
pub open spec fn month_days(y: int, m: int) -> int {
    if m == 2 {
        if is_leap_year(y) { 29 } else { 28 }
    } else if m == 4 || m == 6 || m == 9 || m == 11 {
        30
    } else {
        31
    }
}

/// A `DDDD-DD-DD` string naming a real day: a month from 1 to 12 and a day from 1 to the
/// length of that month.
pub open spec fn gregorian_day_of(s: Seq<char>) -> bool {
    let y = digit_value(s[0]) * 1000 + digit_value(s[1]) * 100 + two_digits(s, 2);
    let m = two_digits(s, 5);
    let d = two_digits(s, 8);
    1 <= m <= 12 && 1 <= d <= month_days(y, m)
}

/// Calls `str::parse::<jiff::civil::Date>` and reports whether it succeeded. Whether `jiff`
/// accepts a string is a function of the string alone; the contract states it through the
/// name of what the parse leads to. For a `DDDD-DD-DD` string it also states what `jiff`'s
/// parser does there: a four-digit year (all of 0000 to 9999 are in range), a month from 1
/// to 12 and a day checked by `Date::new` against the month's length, February having 29
/// days in the Gregorian leap years; nothing may follow the day.
#[verifier::external_body]
fn jiff_parse_date_ok(s: &str) -> (b: bool)
    ensures
        b == jiff_parses_date(s@),
        ymd_shape(s@) ==> (b <==> gregorian_day_of(s@)),
{
    s.parse::<jiff::civil::Date>().is_ok()
}

/// A valid Gregorian day in `YYYY-MM-DD` form: ten characters, a year, and a date `jiff`
/// parses.
pub open spec fn is_calendar_day_of(s: Seq<char>) -> bool {
    s.len() == 10 && is_year_of(s.take(4)) && jiff_parses_date(s)
}

/// Whether `s` is a four-digit year from 1000 to 2999.
pub fn is_year(s: &str) -> (b: bool)
    ensures
        b == is_year_of(s@),
{
    let v = chars_of(s);
    year_at(&v, 0, v.len())
}

fn year_at(v: &Vec<char>, lo: usize, hi: usize) -> (b: bool)
    requires
        lo <= hi <= v.len(),
    ensures
        b == is_year_of(v@.subrange(lo as int, hi as int)),
{
    let ghost s = v@.subrange(lo as int, hi as int);
    if hi - lo != 4 {
        return false;
    }
    let mut i: usize = lo;
    while i < hi
        invariant
            lo <= i <= hi <= v.len(),
            hi - lo == 4,
            s == v@.subrange(lo as int, hi as int),
            forall|j: int| 0 <= j < i - lo ==> is_digit(#[trigger] s[j]),
        decreases hi - i,
    {
        if !(v[i] >= '0' && v[i] <= '9') {
            assert(s[i - lo] == v@[i as int]);
            return false;
        }
        assert(s[i - lo] == v@[i as int]);
        i = i + 1;
    }
    assert(s[0] == v@[lo as int] && s[1] == v@[lo + 1] && s[2] == v@[lo + 2] && s[3] == v@[lo + 3]);
    assert(is_digit(s[0]) && is_digit(s[1]) && is_digit(s[2]) && is_digit(s[3]));
    let n: u32 = (v[lo] as u32 - '0' as u32) * 1000 + (v[lo + 1] as u32 - '0' as u32) * 100 + (
    v[lo + 2] as u32 - '0' as u32) * 10 + (v[lo + 3] as u32 - '0' as u32);
    assert(s[0] == v@[lo as int] && s[1] == v@[lo + 1] && s[2] == v@[lo + 2] && s[3] == v@[lo + 3]);
    1000 <= n && n <= 2999
}

/// Whether `s` is `YYYY-MM` with a valid year and month.
pub fn is_year_month(s: &str) -> (b: bool)
    ensures
        b == is_year_month_of(s@),
{
    let v = chars_of(s);
    if v.len() != 7 {
        return false;
    }
    assert(v@.subrange(0, 4) =~= v@.take(4));
    if !year_at(&v, 0, 4) || v[4] != '-' {
        return false;
    }
    let (a, b) = (v[5], v[6]);
    if !(a >= '0' && a <= '9' && b >= '0' && b <= '9') {
        return false;
    }
    let m: u32 = (a as u32 - '0' as u32) * 10 + (b as u32 - '0' as u32);
    1 <= m && m <= 12
}

/// Whether `s` is a real Gregorian day written `YYYY-MM-DD` (`2026-02-31` is rejected).
pub fn is_calendar_day(s: &str) -> (b: bool)
    ensures
        b == is_calendar_day_of(s@),
        ymd_shape(s@) ==> (b <==> is_year_of(s@.take(4)) && gregorian_day_of(s@)),
{
    let v = chars_of(s);
    if v.len() != 10 {
        return false;
    }
    assert(v@.subrange(0, 4) =~= v@.take(4));
    year_at(&v, 0, 4) && jiff_parse_date_ok(s)
}

/// Number of leading ASCII digits of `s`.
pub open spec fn digit_run(s: Seq<char>) -> nat
    decreases s.len(),
{
    if s.len() > 0 && is_digit(s[0]) {
        1 + digit_run(s.drop_first())
    } else {
        0
    }
}

/// Every maximal run of ASCII digits in `s` that is exactly four long and a year, in order.
pub open spec fn years_of(s: Seq<char>) -> Seq<Seq<char>>
    decreases s.len(),
{
    if s.len() == 0 {
        Seq::empty()
    } else if !is_digit(s[0]) {
        years_of(s.drop_first())
    } else {
        let n = digit_run(s);
        proof {
            lemma_digit_run_bound(s);
        }
        let rest = years_of(s.skip(n as int));
        if n == 4 && is_year_of(s.take(4)) {
            seq![s.take(4)] + rest
        } else {
            rest
        }
    }
}

pub proof fn lemma_digit_run_bound(s: Seq<char>)
    ensures
        digit_run(s) <= s.len(),
        s.len() > 0 && is_digit(s[0]) ==> digit_run(s) >= 1,
    decreases s.len(),
{
    if s.len() > 0 && is_digit(s[0]) {
        lemma_digit_run_bound(s.drop_first());
    }
}

proof fn lemma_digit_run(s: Seq<char>, k: int)
    requires
        0 <= k <= s.len(),
        forall|j: int| 0 <= j < k ==> is_digit(#[trigger] s[j]),
        k == s.len() || !is_digit(s[k]),
    ensures
        digit_run(s) == k,
    decreases k,
{
    if k > 0 {
        lemma_digit_run(s.drop_first(), k - 1);
    }
}

/// Every four-digit run in `s` that looks like a year.
pub fn years_in(s: &str) -> (out: Vec<String>)
    ensures
        out@.map_values(|y: String| y@) == years_of(s@),
{
    let v = chars_of(s);
    let mut out: Vec<String> = Vec::new();
    let mut i: usize = 0;
    assert(v@.skip(0) =~= v@);
    assert(out@.map_values(|y: String| y@) + years_of(v@) =~= years_of(v@));
    while i < v.len()
        invariant
            0 <= i <= v.len(),
            v@ == s@,
            years_of(s@) == out@.map_values(|y: String| y@) + years_of(v@.skip(i as int)),
        decreases v.len() - i,
    {
        let ghost t = v@.skip(i as int);
        if v[i] >= '0' && v[i] <= '9' {
            let start = i;
            while i < v.len() && v[i] >= '0' && v[i] <= '9'
                invariant
                    start <= i <= v.len(),
                    forall|j: int| start <= j < i ==> is_digit(#[trigger] v@[j]),
                decreases v.len() - i,
            {
                i = i + 1;
            }
            proof {
                assert forall|j: int| 0 <= j < i - start implies is_digit(#[trigger] t[j]) by {
                    assert(t[j] == v@[start + j]);
                }
                if i < v.len() {
                    assert(t[i - start] == v@[i as int]);
                }
                lemma_digit_run(t, i - start);
                assert(t.skip(i - start) =~= v@.skip(i as int));
                if i - start == 4 {
                    assert(t.take(4) =~= v@.subrange(start as int, start + 4));
                }
            }
            if i - start == 4 && year_at(&v, start, i) {
                let y = string_of_range(&v, start, i);
                let ghost old_out = out@;
                out.push(y);
                assert(out@.map_values(|y: String| y@) =~= old_out.map_values(|y: String| y@).push(y@));
            }
        } else {
            assert(t.drop_first() =~= v@.skip(i + 1));
            i = i + 1;
        }
    }
    assert(v@.skip(v.len() as int) =~= Seq::<char>::empty());
    assert(out@.map_values(|y: String| y@) + Seq::<Seq<char>>::empty() =~= out@.map_values(|y: String| y@));
    out
}

} // verus!

verus! {

// ---------------------------------------------------------------- iso dates

/// Length of the date part of `s`: the characters before the first `T` or space.
pub open spec fn date_part_len(s: Seq<char>) -> nat
    decreases s.len(),
{
    if s.len() == 0 || s[0] == 'T' || s[0] == ' ' {
        0
    } else {
        1 + date_part_len(s.drop_first())
    }
}

proof fn lemma_date_part_len(s: Seq<char>, k: int)
    requires
        0 <= k <= s.len(),
        forall|j: int| 0 <= j < k ==> #[trigger] s[j] != 'T' && s[j] != ' ',
        k == s.len() || s[k] == 'T' || s[k] == ' ',
    ensures
        date_part_len(s) == k,
    decreases k,
{
    if k > 0 {
        lemma_date_part_len(s.drop_first(), k - 1);
    }
}

/// How many characters the canonical form of a date of this precision has.
pub open spec fn iso_len(p: DatePrecision) -> nat {
    match p {
        DatePrecision::Day | DatePrecision::Relative => 10,
        DatePrecision::Month => 7,
        DatePrecision::Quarter | DatePrecision::Year => 4,
    }
}

/// Lenient model output coerced to the canonical shape for its precision: the trimmed text
/// with any time part (from the first `T` or space) cut off, then cut to the precision's
/// length, when that date part is a calendar day, a year-month or a year at least as long
/// as the precision asks; otherwise the trimmed text unchanged.
pub open spec fn normalize_iso_of(iso: Seq<char>, p: DatePrecision) -> Seq<char> {
    let s = trim(iso);
    let d = s.take(date_part_len(s) as int);
    let n = iso_len(p);
    if d.len() >= n && d.len() <= 10 && ((d.len() == 10 && is_calendar_day_of(d)) || (d.len()
        == 7 && is_year_month_of(d)) || (d.len() == 4 && is_year_of(d))) {
        d.take(n as int)
    } else {
        s
    }
}

/// `iso`, trimmed, has the shape its precision promises and, when `raw` writes any
/// four-digit year, begins with one of them.
pub open spec fn iso_matches_of(iso: Seq<char>, p: DatePrecision, raw: Seq<char>) -> bool {
    let s = trim(iso);
    let shape_ok = match p {
        DatePrecision::Day => is_calendar_day_of(s),
        DatePrecision::Month => is_year_month_of(s),
        DatePrecision::Quarter | DatePrecision::Year => is_year_of(s),
        DatePrecision::Relative => is_calendar_day_of(s) || is_year_month_of(s) || is_year_of(s),
    };
    shape_ok && (years_of(raw).len() == 0 || years_of(raw).contains(s.take(4)))
}

/// Coerce lenient model output to the canonical shape for its precision: strip a time part
/// (`2026-07-01T00:00:00Z` → `2026-07-01`), then cut to `YYYY-MM` for month precision and
/// `YYYY` for quarter/year precision. Anything unrecognisable is returned trimmed.
pub fn normalize_iso(iso: &str, precision: DatePrecision) -> (r: String)
    ensures
        r@ == normalize_iso_of(iso@, precision),
{
    let s = trimmed(iso);
    let v = chars_of(s.as_str());
    let mut k: usize = 0;
    while k < v.len() && v[k] != 'T' && v[k] != ' '
        invariant
            0 <= k <= v.len(),
            forall|j: int| 0 <= j < k ==> #[trigger] v@[j] != 'T' && v@[j] != ' ',
        decreases v.len() - k,
    {
        k = k + 1;
    }
    proof {
        lemma_date_part_len(v@, k as int);
    }
    let d = string_of_range(&v, 0, k);
    assert(v@.subrange(0, k as int) =~= v@.take(k as int));
    let n: usize = match precision {
        DatePrecision::Day | DatePrecision::Relative => 10,
        DatePrecision::Month => 7,
        DatePrecision::Quarter | DatePrecision::Year => 4,
    };
    if k >= n && k <= 10 && ((k == 10 && is_calendar_day(d.as_str())) || (k == 7 && is_year_month(
        d.as_str(),
    )) || (k == 4 && is_year(d.as_str()))) {
        let r = string_of_range(&v, 0, n);
        assert(v@.subrange(0, n as int) =~= v@.take(k as int).take(n as int));
        r
    } else {
        s
    }
}

/// `iso` must be a real calendar value of the shape its precision promises, and must agree
/// with any four-digit year written in `raw`. This is what stops a card from quoting
/// "March 2026" as evidence for `2099-03`.
pub fn iso_matches(iso: &str, precision: DatePrecision, raw: &str) -> (b: bool)
    ensures
        b == iso_matches_of(iso@, precision, raw@),
{
    let s = trimmed(iso);
    let shape_ok = match precision {
        DatePrecision::Day => is_calendar_day(s.as_str()),
        DatePrecision::Month => is_year_month(s.as_str()),
        DatePrecision::Quarter | DatePrecision::Year => is_year(s.as_str()),
        DatePrecision::Relative => is_calendar_day(s.as_str()) || is_year_month(s.as_str())
            || is_year(s.as_str()),
    };
    if !shape_ok {
        return false;
    }
    let years = years_in(raw);
    if years.len() == 0 {
        return true;
    }
    let v = chars_of(s.as_str());
    let head = string_of_range(&v, 0, 4);
    assert(v@.subrange(0, 4) =~= v@.take(4));
    contains_string(&years, &head)
}

} // verus!

verus! {

// ---------------------------------------------------------------- lists

/// Upper bounds applied to a summary. Defaults match the prompt contract.
#[derive(Debug, Clone, Copy, PartialEq, Eq, Structural)]
pub struct Caps {
    /// Max keywords kept.
    pub keywords: usize,
    /// Max questions kept.
    pub questions: usize,
    /// Max decisions kept.
    pub decisions: usize,
    /// Max action items kept.
    pub action_items: usize,
    /// Max entities per category.
    pub entities_per_category: usize,
    /// Max dates kept (after grounding).
    pub dates: usize,
    /// Longest string kept in any field, in characters.
    pub max_chars: usize,
}

impl Default for Caps {
    fn default() -> (c: Self)
        ensures
            c == (Caps {
                keywords: 8,
                questions: 4,
                decisions: 4,
                action_items: 3,
                entities_per_category: 6,
                dates: 12,
                max_chars: 400,
            }),
    {
        Caps {
            keywords: 8,
            questions: 4,
            decisions: 4,
            action_items: 3,
            entities_per_category: 6,
            dates: 12,
            max_chars: 400,
        }
    }
}

/// The key under which a value is de-duplicated.
pub open spec fn dedupe_key(v: Seq<char>, case_insensitive: bool) -> Seq<char> {
    if case_insensitive {
        lowercase_of(v)
    } else {
        v
    }
}

/// `vals` without empty strings and without later duplicates (by [`dedupe_key`]), first
/// occurrences kept in order.
pub open spec fn dedupe_of(vals: Seq<Seq<char>>, case_insensitive: bool) -> Seq<Seq<char>>
    decreases vals.len(),
{
    if vals.len() == 0 {
        Seq::empty()
    } else {
        let prev = dedupe_of(vals.drop_last(), case_insensitive);
        let v = vals.last();
        if v.len() == 0 || prev.map_values(|p: Seq<char>| dedupe_key(p, case_insensitive)).contains(
            dedupe_key(v, case_insensitive),
        ) {
            prev
        } else {
            prev.push(v)
        }
    }
}

/// Drop empties and duplicates, keeping first occurrence and order.
fn dedupe(values: Vec<String>, case_insensitive: bool) -> (out: Vec<String>)
    ensures
        texts(out@) == dedupe_of(texts(values@), case_insensitive),
{
    let mut out: Vec<String> = Vec::new();
    let mut keys: Vec<String> = Vec::new();
    let mut i: usize = 0;
    while i < values.len()
        invariant
            0 <= i <= values.len(),
            texts(out@) == dedupe_of(texts(values@).take(i as int), case_insensitive),
            texts(keys@) == texts(out@).map_values(|p: Seq<char>| dedupe_key(p, case_insensitive)),
        decreases values.len() - i,
    {
        let v = &values[i];
        proof {
            assert(texts(values@).take(i + 1).drop_last() =~= texts(values@).take(i as int));
            assert(texts(values@).take(i + 1).last() == v@);
        }
        if !v.as_str().is_empty() {
            let key = if case_insensitive {
                to_lower(v.as_str())
            } else {
                v.clone()
            };
            if !contains_string(&keys, &key) {
                let ghost (ko, oo) = (keys@, out@);
                keys.push(key);
                out.push(v.clone());
                assert(texts(keys@) =~= texts(ko).push(key@));
                assert(texts(out@) =~= texts(oo).push(v@));
                assert(texts(out@).map_values(|p: Seq<char>| dedupe_key(p, case_insensitive))
                    =~= texts(oo).map_values(|p: Seq<char>| dedupe_key(p, case_insensitive)).push(
                    dedupe_key(v@, case_insensitive),
                ));
            }
        }
        i = i + 1;
    }
    assert(texts(values@).take(values.len() as int) =~= texts(values@));
    out
}

/// Each string of `vals`, trimmed.
pub open spec fn trim_all(vals: Seq<Seq<char>>) -> Seq<Seq<char>> {
    vals.map_values(|v: Seq<char>| trim(v))
}

/// Each string of `vals`, trimmed and lower-cased.
pub open spec fn trim_lower_all(vals: Seq<Seq<char>>) -> Seq<Seq<char>> {
    vals.map_values(|v: Seq<char>| lowercase_of(trim(v)))
}

fn trim_each(vals: &Vec<String>, lower: bool) -> (out: Vec<String>)
    ensures
        texts(out@) == if lower {
            trim_lower_all(texts(vals@))
        } else {
            trim_all(texts(vals@))
        },
{
    let mut out: Vec<String> = Vec::new();
    let mut i: usize = 0;
    while i < vals.len()
        invariant
            0 <= i <= vals.len(),
            out.len() == i,
            forall|j: int|
                0 <= j < i ==> (#[trigger] out@[j])@ == if lower {
                    lowercase_of(trim(vals@[j]@))
                } else {
                    trim(vals@[j]@)
                },
        decreases vals.len() - i,
    {
        let t = trimmed(vals[i].as_str());
        if lower {
            out.push(to_lower(t.as_str()));
        } else {
            out.push(t);
        }
        i = i + 1;
    }
    proof {
        if lower {
            assert(texts(out@) =~= trim_lower_all(texts(vals@)));
        } else {
            assert(texts(out@) =~= trim_all(texts(vals@)));
        }
    }
    out
}

/// `vals` cut to `cap` entries, each clipped to `max` characters.
pub open spec fn capped_of(vals: Seq<Seq<char>>, cap: usize, max: usize) -> Seq<Seq<char>> {
    let t = if vals.len() > cap {
        vals.take(cap as int)
    } else {
        vals
    };
    t.map_values(|v: Seq<char>| clip_of(v, max as nat))
}

/// `seq![name]` when `cond` holds, else nothing.
pub open spec fn flag(name: Seq<char>, cond: bool) -> Seq<Seq<char>> {
    if cond {
        seq![name]
    } else {
        Seq::empty()
    }
}

fn cap_list(values: Vec<String>, cap: usize, name: &str, trimmed: &mut Vec<String>, max_chars: usize) -> (out: Vec<String>)
    ensures
        texts(out@) == capped_of(texts(values@), cap, max_chars),
        texts(final(trimmed)@) == texts(old(trimmed)@) + flag(name@, values.len() > cap),
{
    let n = if values.len() > cap {
        let ghost t = texts(trimmed@);
        trimmed.push(name.to_owned());
        assert(texts(trimmed@) =~= t + flag(name@, values.len() > cap));
        cap
    } else {
        assert(texts(trimmed@) =~= texts(trimmed@) + flag(name@, values.len() > cap));
        values.len()
    };
    let mut out: Vec<String> = Vec::new();
    let mut i: usize = 0;
    while i < n
        invariant
            0 <= i <= n <= values.len(),
            n == if values.len() > cap { cap } else { values.len() },
            out.len() == i,
            forall|j: int| 0 <= j < i ==> (#[trigger] out@[j])@ == clip_of(values@[j]@, max_chars as nat),
        decreases n - i,
    {
        out.push(clip(values[i].as_str(), max_chars));
        i = i + 1;
    }
    assert(texts(out@) =~= capped_of(texts(values@), cap, max_chars));
    out
}

} // verus!

verus! {

// ---------------------------------------------------------------- grounding

/// An entity is grounded when its normalised, lower-cased text is non-empty and occurs in
/// the (normalised, lower-cased) section text.
pub open spec fn entity_grounded(v: Seq<char>, hay_lower: Seq<char>) -> bool {
    let needle = lowercase_of(normalize_of(v));
    needle.len() > 0 && contains_seq(hay_lower, needle)
}

/// Grounding sees an entity only through its normalised form: two entities that differ
/// only in typography (curly or straight quotes, dashes, the ellipsis) or in whitespace are
/// grounded alike, so an entity copied from the section is judged as the section's text is.
pub proof fn law_entity_grounding_ignores_typography(v1: Seq<char>, v2: Seq<char>, hay_lower: Seq<char>)
    requires
        normalize_of(v1) == normalize_of(v2),
    ensures
        entity_grounded(v1, hay_lower) == entity_grounded(v2, hay_lower),
        entity_grounded(v1, hay_lower) == entity_grounded(normalize_of(v1), hay_lower),
{
    law_normalize_idempotent(v1);
}

/// The grounded values of `vals`, clipped to `max` characters, in order.
pub open spec fn grounded_of(vals: Seq<Seq<char>>, hay_lower: Seq<char>, max: usize) -> Seq<Seq<char>>
    decreases vals.len(),
{
    if vals.len() == 0 {
        Seq::empty()
    } else {
        let prev = grounded_of(vals.drop_last(), hay_lower, max);
        if entity_grounded(vals.last(), hay_lower) {
            prev.push(clip_of(vals.last(), max as nat))
        } else {
            prev
        }
    }
}

/// The values of `vals` that are not grounded, each reported as `category:value`.
pub open spec fn ungrounded_of(category: Seq<char>, vals: Seq<Seq<char>>, hay_lower: Seq<char>) -> Seq<Seq<char>>
    decreases vals.len(),
{
    if vals.len() == 0 {
        Seq::empty()
    } else {
        let prev = ungrounded_of(category, vals.drop_last(), hay_lower);
        if entity_grounded(vals.last(), hay_lower) {
            prev
        } else {
            prev.push(category.push(':') + vals.last())
        }
    }
}

/// The candidates of one entity category: trimmed, without empties and duplicates.
pub open spec fn entity_candidates(vals: Seq<Seq<char>>) -> Seq<Seq<char>> {
    dedupe_of(trim_all(vals), false)
}

/// The entities one category keeps: the grounded candidates, clipped, at most `cap`.
pub open spec fn entities_kept_of(vals: Seq<Seq<char>>, hay_lower: Seq<char>, caps: Caps) -> Seq<Seq<char>> {
    let g = grounded_of(entity_candidates(vals), hay_lower, caps.max_chars);
    if g.len() > caps.entities_per_category {
        g.take(caps.entities_per_category as int)
    } else {
        g
    }
}

/// Whether one category had more grounded entities than the cap.
pub open spec fn entities_trimmed(vals: Seq<Seq<char>>, hay_lower: Seq<char>, caps: Caps) -> bool {
    grounded_of(entity_candidates(vals), hay_lower, caps.max_chars).len() > caps.entities_per_category
}

fn ground_entities(
    category: &str,
    values: &Vec<String>,
    haystack_lower: &str,
    caps: &Caps,
    dropped: &mut Vec<String>,
    trimmed: &mut Vec<String>,
) -> (kept: Vec<String>)
    ensures
        texts(kept@) == entities_kept_of(texts(values@), haystack_lower@, *caps),
        texts(final(dropped)@) == texts(old(dropped)@) + ungrounded_of(
            category@,
            entity_candidates(texts(values@)),
            haystack_lower@,
        ),
        texts(final(trimmed)@) == texts(old(trimmed)@) + flag(
            category@,
            entities_trimmed(texts(values@), haystack_lower@, *caps),
        ),
{
    let cands = dedupe(trim_each(values, false), false);
    let ghost c = texts(cands@);
    let ghost d0 = texts(dropped@);
    let mut kept: Vec<String> = Vec::new();
    let mut i: usize = 0;
    while i < cands.len()
        invariant
            0 <= i <= cands.len(),
            c == texts(cands@),
            c == entity_candidates(texts(values@)),
            texts(kept@) == grounded_of(c.take(i as int), haystack_lower@, caps.max_chars),
            texts(dropped@) == d0 + ungrounded_of(category@, c.take(i as int), haystack_lower@),
        decreases cands.len() - i,
    {
        let v = &cands[i];
        proof {
            assert(c.take(i + 1).drop_last() =~= c.take(i as int));
            assert(c.take(i + 1).last() == v@);
        }
        let needle = to_lower(normalize(v.as_str()).as_str());
        if !needle.as_str().is_empty() && contains_str(haystack_lower, needle.as_str()) {
            let ghost k0 = texts(kept@);
            kept.push(clip(v.as_str(), caps.max_chars));
            assert(texts(kept@) =~= k0.push(clip_of(v@, caps.max_chars as nat)));
        } else {
            let mut entry = category.to_owned();
            push_char(&mut entry, ':');
            push_str(&mut entry, v.as_str());
            let ghost dd = texts(dropped@);
            dropped.push(entry);
            assert(texts(dropped@) =~= dd.push(category@.push(':') + v@));
        }
        i = i + 1;
    }
    assert(c.take(cands.len() as int) =~= c);
    let ghost t0 = texts(trimmed@);
    if kept.len() > caps.entities_per_category {
        kept.truncate(caps.entities_per_category);
        trimmed.push(category.to_owned());
        assert(texts(trimmed@) =~= t0 + flag(category@, true));
        assert(texts(kept@) =~= entities_kept_of(texts(values@), haystack_lower@, *caps));
    } else {
        assert(texts(trimmed@) =~= t0 + flag(category@, false));
    }
    kept
}

/// The entities the section grounds, per category, each capped.
pub open spec fn entities_kept(e: Entities, hay_lower: Seq<char>, caps: Caps) -> (
    Seq<Seq<char>>,
    Seq<Seq<char>>,
    Seq<Seq<char>>,
    Seq<Seq<char>>,
    Seq<Seq<char>>,
    Seq<Seq<char>>,
) {
    (
        entities_kept_of(texts(e.people@), hay_lower, caps),
        entities_kept_of(texts(e.orgs@), hay_lower, caps),
        entities_kept_of(texts(e.products@), hay_lower, caps),
        entities_kept_of(texts(e.technologies@), hay_lower, caps),
        entities_kept_of(texts(e.files_paths@), hay_lower, caps),
        entities_kept_of(texts(e.commands@), hay_lower, caps),
    )
}

/// The view of an entities value: its six lists, in field order.
pub open spec fn entities_view(e: Entities) -> (
    Seq<Seq<char>>,
    Seq<Seq<char>>,
    Seq<Seq<char>>,
    Seq<Seq<char>>,
    Seq<Seq<char>>,
    Seq<Seq<char>>,
) {
    (
        texts(e.people@),
        texts(e.orgs@),
        texts(e.products@),
        texts(e.technologies@),
        texts(e.files_paths@),
        texts(e.commands@),
    )
}

/// Every entity that is not grounded, as `category:value`, categories in field order.
pub open spec fn entities_dropped(e: Entities, hay_lower: Seq<char>) -> Seq<Seq<char>> {
    ungrounded_of("people"@, entity_candidates(texts(e.people@)), hay_lower) + ungrounded_of(
        "orgs"@,
        entity_candidates(texts(e.orgs@)),
        hay_lower,
    ) + ungrounded_of("products"@, entity_candidates(texts(e.products@)), hay_lower)
        + ungrounded_of("technologies"@, entity_candidates(texts(e.technologies@)), hay_lower)
        + ungrounded_of("files_paths"@, entity_candidates(texts(e.files_paths@)), hay_lower)
        + ungrounded_of("commands"@, entity_candidates(texts(e.commands@)), hay_lower)
}

/// The names of the entity categories that were cut to the cap, in field order.
pub open spec fn entities_trimmed_names(e: Entities, hay_lower: Seq<char>, caps: Caps) -> Seq<Seq<char>> {
    flag("people"@, entities_trimmed(texts(e.people@), hay_lower, caps)) + flag(
        "orgs"@,
        entities_trimmed(texts(e.orgs@), hay_lower, caps),
    ) + flag("products"@, entities_trimmed(texts(e.products@), hay_lower, caps)) + flag(
        "technologies"@,
        entities_trimmed(texts(e.technologies@), hay_lower, caps),
    ) + flag("files_paths"@, entities_trimmed(texts(e.files_paths@), hay_lower, caps)) + flag(
        "commands"@,
        entities_trimmed(texts(e.commands@), hay_lower, caps),
    )
}

fn ground_all_entities(
    e: &Entities,
    haystack_lower: &str,
    caps: &Caps,
    dropped: &mut Vec<String>,
    trimmed: &mut Vec<String>,
) -> (r: Entities)
    ensures
        entities_view(r) == entities_kept(*e, haystack_lower@, *caps),
        texts(final(dropped)@) == texts(old(dropped)@) + entities_dropped(*e, haystack_lower@),
        texts(final(trimmed)@) == texts(old(trimmed)@) + entities_trimmed_names(
            *e,
            haystack_lower@,
            *caps,
        ),
{
    let ghost (d0, t0) = (texts(dropped@), texts(trimmed@));
    let people = ground_entities("people", &e.people, haystack_lower, caps, dropped, trimmed);
    let orgs = ground_entities("orgs", &e.orgs, haystack_lower, caps, dropped, trimmed);
    let products = ground_entities("products", &e.products, haystack_lower, caps, dropped, trimmed);
    let technologies = ground_entities(
        "technologies",
        &e.technologies,
        haystack_lower,
        caps,
        dropped,
        trimmed,
    );
    let files_paths = ground_entities(
        "files_paths",
        &e.files_paths,
        haystack_lower,
        caps,
        dropped,
        trimmed,
    );
    let commands = ground_entities("commands", &e.commands, haystack_lower, caps, dropped, trimmed);
    assert(texts(dropped@) =~= d0 + entities_dropped(*e, haystack_lower@));
    assert(texts(trimmed@) =~= t0 + entities_trimmed_names(*e, haystack_lower@, *caps));
    Entities { people, orgs, products, technologies, files_paths, commands }
}

} // verus!

verus! {

// ---------------------------------------------------------------- dates and the whole card

/// The view of a mentioned date: raw text, iso, precision, evidence.
pub type DateView = (Seq<char>, Seq<char>, DatePrecision, Seq<char>);

/// The view of a mentioned date.
pub open spec fn date_view(d: MentionedDate) -> DateView {
    (d.raw@, d.iso@, d.precision, d.evidence@)
}

/// The views of a list of dates.
pub open spec fn date_views(ds: Seq<MentionedDate>) -> Seq<DateView> {
    ds.map_values(|d: MentionedDate| date_view(d))
}

/// A date is grounded when its normalised evidence is non-empty and occurs in the
/// (normalised) section text, contains its normalised raw text (ignoring case), and its iso
/// matches its precision and raw text.
pub open spec fn date_grounded(raw: Seq<char>, iso: Seq<char>, p: DatePrecision, evidence: Seq<char>, hay: Seq<char>) -> bool {
    let e = normalize_of(evidence);
    let r = normalize_of(raw);
    &&& e.len() > 0 && r.len() > 0
    &&& contains_seq(hay, e)
    &&& contains_seq(lowercase_of(e), lowercase_of(r))
    &&& iso_matches_of(iso, p, raw)
}

/// The dates kept, in order: those grounded once their iso is normalised, with raw text and
/// evidence trimmed and clipped to `max`.
pub open spec fn dates_kept_of(ds: Seq<DateView>, hay: Seq<char>, max: usize) -> Seq<DateView>
    decreases ds.len(),
{
    if ds.len() == 0 {
        Seq::empty()
    } else {
        let prev = dates_kept_of(ds.drop_last(), hay, max);
        let d = ds.last();
        let iso = normalize_iso_of(d.1, d.2);
        if date_grounded(d.0, iso, d.2, d.3, hay) {
            prev.push((clip_of(trim(d.0), max as nat), iso, d.2, clip_of(trim(d.3), max as nat)))
        } else {
            prev
        }
    }
}

/// The dates dropped, in order, as given but with their iso normalised.
pub open spec fn dates_dropped_of(ds: Seq<DateView>, hay: Seq<char>) -> Seq<DateView>
    decreases ds.len(),
{
    if ds.len() == 0 {
        Seq::empty()
    } else {
        let prev = dates_dropped_of(ds.drop_last(), hay);
        let d = ds.last();
        let iso = normalize_iso_of(d.1, d.2);
        if date_grounded(d.0, iso, d.2, d.3, hay) {
            prev
        } else {
            prev.push((d.0, iso, d.2, d.3))
        }
    }
}

/// Whether `date` is grounded in `haystack` (see [`date_grounded`]).
fn is_grounded_date(date: &MentionedDate, haystack: &str) -> (b: bool)
    ensures
        b == date_grounded(date.raw@, date.iso@, date.precision, date.evidence@, haystack@),
{
    let evidence = normalize(date.evidence.as_str());
    let raw = normalize(date.raw.as_str());
    if evidence.as_str().is_empty() || raw.as_str().is_empty() {
        return false;
    }
    contains_str(haystack, evidence.as_str()) && contains_str(
        to_lower(evidence.as_str()).as_str(),
        to_lower(raw.as_str()).as_str(),
    ) && iso_matches(date.iso.as_str(), date.precision, date.raw.as_str())
}

fn ground_dates(dates: Vec<MentionedDate>, haystack: &str, max_chars: usize) -> (r: (Vec<MentionedDate>, Vec<MentionedDate>))
    ensures
        date_views(r.0@) == dates_kept_of(date_views(dates@), haystack@, max_chars),
        date_views(r.1@) == dates_dropped_of(date_views(dates@), haystack@),
{
    let ghost ds = date_views(dates@);
    let mut kept: Vec<MentionedDate> = Vec::new();
    let mut dropped: Vec<MentionedDate> = Vec::new();
    let mut i: usize = 0;
    while i < dates.len()
        invariant
            0 <= i <= dates.len(),
            ds == date_views(dates@),
            date_views(kept@) == dates_kept_of(ds.take(i as int), haystack@, max_chars),
            date_views(dropped@) == dates_dropped_of(ds.take(i as int), haystack@),
        decreases dates.len() - i,
    {
        let d = &dates[i];
        proof {
            assert(ds.take(i + 1).drop_last() =~= ds.take(i as int));
            assert(ds.take(i + 1).last() == date_view(*d));
        }
        let date = MentionedDate {
            raw: d.raw.clone(),
            iso: normalize_iso(d.iso.as_str(), d.precision),
            precision: d.precision,
            evidence: d.evidence.clone(),
        };
        if is_grounded_date(&date, haystack) {
            let raw = trimmed(date.raw.as_str());
            let evidence = trimmed(date.evidence.as_str());
            let k = MentionedDate {
                raw: clip(raw.as_str(), max_chars),
                iso: date.iso,
                precision: date.precision,
                evidence: clip(evidence.as_str(), max_chars),
            };
            let ghost k0 = date_views(kept@);
            kept.push(k);
            assert(date_views(kept@) =~= k0.push(date_view(k)));
        } else {
            let ghost d0 = date_views(dropped@);
            dropped.push(date);
            assert(date_views(dropped@) =~= d0.push(date_view(date)));
        }
        i = i + 1;
    }
    assert(ds.take(dates.len() as int) =~= ds);
    (kept, dropped)
}

/// Outcome of validation: the cleaned summary plus what was changed.
#[derive(Debug, Clone, PartialEq, Eq)]
pub struct Validated {
    /// The summary, cleaned and capped.
    pub summary: SectionSummary,
    /// Dates whose evidence was not found in the section.
    pub dropped_dates: Vec<MentionedDate>,
    /// Entities not found in the section, as `category:value`.
    pub dropped_entities: Vec<String>,
    /// Fields that were trimmed to a cap.
    pub trimmed: Vec<String>,
}

impl Validated {
    /// `true` when nothing was dropped or trimmed.
    pub fn is_clean(&self) -> (b: bool)
        ensures
            b == (self.dropped_dates.len() == 0 && self.dropped_entities.len() == 0
                && self.trimmed.len() == 0),
    {
        self.dropped_dates.len() == 0 && self.dropped_entities.len() == 0 && self.trimmed.len() == 0
    }
}

/// The `tldr` the card keeps: trimmed, clipped to `max_chars`.
pub open spec fn tldr_of(s: SectionSummary, caps: Caps) -> Seq<char> {
    clip_of(trim(s.tldr@), caps.max_chars as nat)
}

/// The `summary` the card keeps: trimmed, clipped to twice `max_chars`.
pub open spec fn body_of(s: SectionSummary, caps: Caps) -> Seq<char> {
    clip_of(trim(s.summary@), (caps.max_chars * 2) as nat)
}

/// A card is refused when its kept `tldr` or `summary` is empty.
pub open spec fn rejects(s: SectionSummary, caps: Caps) -> bool {
    tldr_of(s, caps).len() == 0 || body_of(s, caps).len() == 0
}

/// The keywords after trimming, lower-casing and case-insensitive de-duplication.
pub open spec fn keyword_candidates(s: SectionSummary) -> Seq<Seq<char>> {
    dedupe_of(trim_lower_all(texts(s.keywords@)), true)
}

/// A list after trimming and de-duplication.
pub open spec fn list_candidates(vals: Seq<String>) -> Seq<Seq<char>> {
    dedupe_of(trim_all(texts(vals)), false)
}

/// The names of the fields cut to a cap, in the order the validator checks them.
pub open spec fn trimmed_names(s: SectionSummary, hay_lower: Seq<char>, hay: Seq<char>, caps: Caps) -> Seq<Seq<char>> {
    flag("keywords"@, keyword_candidates(s).len() > caps.keywords) + flag(
        "questions_answered"@,
        list_candidates(s.questions_answered@).len() > caps.questions,
    ) + flag("decisions"@, list_candidates(s.decisions@).len() > caps.decisions) + flag(
        "action_items"@,
        list_candidates(s.action_items@).len() > caps.action_items,
    ) + entities_trimmed_names(s.entities, hay_lower, caps) + flag(
        "mentioned_dates"@,
        dates_kept_of(date_views(s.mentioned_dates@), hay, caps.max_chars).len() > caps.dates,
    )
}

/// What a refused card's error names as its subject.
pub const REJECTED_SUBJECT: &'static str = "section summary";

/// Why a card is refused.
pub const REJECTED_REASON: &'static str = "tldr or summary is empty";

/// `v` is what validation makes of `summary` for a section with text `text`: every field
/// cleaned, grounded and capped as the module documentation describes, with what was dropped
/// and the names of the fields that were cut.
pub open spec fn validated_fits(text: Seq<char>, summary: SectionSummary, caps: Caps, v: Validated) -> bool {
    let hay = normalize_of(text);
    let hay_lower = lowercase_of(hay);
    let dates = dates_kept_of(date_views(summary.mentioned_dates@), hay, caps.max_chars);
    &&& v.summary.tldr@ == tldr_of(summary, caps)
    &&& v.summary.summary@ == body_of(summary, caps)
    &&& texts(v.summary.keywords@) == capped_of(keyword_candidates(summary), caps.keywords, caps.max_chars)
    &&& texts(v.summary.questions_answered@) == capped_of(list_candidates(summary.questions_answered@), caps.questions, caps.max_chars)
    &&& texts(v.summary.decisions@) == capped_of(list_candidates(summary.decisions@), caps.decisions, caps.max_chars)
    &&& texts(v.summary.action_items@) == capped_of(list_candidates(summary.action_items@), caps.action_items, caps.max_chars)
    &&& entities_view(v.summary.entities) == entities_kept(summary.entities, hay_lower, caps)
    &&& date_views(v.summary.mentioned_dates@) == if dates.len() > caps.dates { dates.take(caps.dates as int) } else { dates }
    &&& date_views(v.dropped_dates@) == dates_dropped_of(date_views(summary.mentioned_dates@), hay)
    &&& texts(v.dropped_entities@) == entities_dropped(summary.entities, hay_lower)
    &&& texts(v.trimmed@) == trimmed_names(summary, hay_lower, hay, caps)
}

/// Validate `summary` against the section text it was produced from.
///
/// The section text is compared after [`normalize`] (and, for entities, lower-casing). The
/// card is refused with [`Error::Validation`] exactly when its trimmed, clipped `tldr` or
/// `summary` is empty; otherwise every field is what the module documentation describes.
pub fn validate(section_text: &str, summary: SectionSummary, caps: &Caps) -> (r: Result<Validated, Error>)
    requires
        caps.max_chars * 2 <= usize::MAX,
    ensures
        match r {
            Err(e) => rejects(summary, *caps) && (e matches Error::Validation { subject, reason }
                && subject@ == REJECTED_SUBJECT@ && reason@ == REJECTED_REASON@),
            Ok(v) => !rejects(summary, *caps) && validated_fits(section_text@, summary, *caps, v),
        },
{
    let haystack = normalize(section_text);
    let haystack_lower = to_lower(haystack.as_str());
    let mut cut: Vec<String> = Vec::new();

    let tldr = clip(trimmed(summary.tldr.as_str()).as_str(), caps.max_chars);
    let body = clip(trimmed(summary.summary.as_str()).as_str(), caps.max_chars * 2);
    if tldr.as_str().is_empty() || body.as_str().is_empty() {
        return Err(
            Error::Validation {
                subject: REJECTED_SUBJECT.to_string(),
                reason: REJECTED_REASON.to_string(),
            },
        );
    }
    let ghost t0 = texts(cut@);
    let keywords = cap_list(
        dedupe(trim_each(&summary.keywords, true), true),
        caps.keywords,
        "keywords",
        &mut cut,
        caps.max_chars,
    );
    let questions_answered = cap_list(
        dedupe(trim_each(&summary.questions_answered, false), false),
        caps.questions,
        "questions_answered",
        &mut cut,
        caps.max_chars,
    );
    let decisions = cap_list(
        dedupe(trim_each(&summary.decisions, false), false),
        caps.decisions,
        "decisions",
        &mut cut,
        caps.max_chars,
    );
    let action_items = cap_list(
        dedupe(trim_each(&summary.action_items, false), false),
        caps.action_items,
        "action_items",
        &mut cut,
        caps.max_chars,
    );
    let mut dropped_entities: Vec<String> = Vec::new();
    let entities = ground_all_entities(
        &summary.entities,
        haystack_lower.as_str(),
        caps,
        &mut dropped_entities,
        &mut cut,
    );
    assert(texts(dropped_entities@) =~= entities_dropped(summary.entities, haystack_lower@));
    let (mut mentioned_dates, dropped_dates) = ground_dates(
        summary.mentioned_dates,
        haystack.as_str(),
        caps.max_chars,
    );
    let ghost t1 = texts(cut@);
    if mentioned_dates.len() > caps.dates {
        mentioned_dates.truncate(caps.dates);
        cut.push("mentioned_dates".to_owned());
        assert(date_views(mentioned_dates@) =~= dates_kept_of(date_views(summary.mentioned_dates@), haystack@, caps.max_chars).take(caps.dates as int));
    }
    assert(texts(cut@) =~= trimmed_names(summary, haystack_lower@, haystack@, *caps));
    Ok(
        Validated {
            summary: SectionSummary {
                tldr,
                summary: body,
                keywords,
                questions_answered,
                entities,
                mentioned_dates,
                decisions,
                action_items,
            },
            dropped_dates,
            dropped_entities,
            trimmed: cut,
        },
    )
}

} // verus!

verus! {

// ---------------------------------------------------------------- laws

/// Text already in normal form: no typographic characters, no whitespace but single inner
/// spaces.
pub open spec fn is_normal(s: Seq<char>) -> bool {
    &&& forall|i: int| 0 <= i < s.len() ==> !is_typographic(#[trigger] s[i]) && (is_ws(s[i]) ==> s[i] == ' ')
    &&& s.len() > 0 ==> s[0] != ' ' && s.last() != ' '
    &&& forall|i: int| 0 <= i < s.len() - 1 ==> !(#[trigger] s[i] == ' ' && s[i + 1] == ' ')
}

proof fn lemma_normalize_state_normal(s: Seq<char>)
    ensures
        is_normal(normalize_state(s).0),
    decreases s.len(),
{
    if s.len() > 0 {
        lemma_normalize_state_normal(s.drop_last());
        let (out, pending) = normalize_state(s.drop_last());
        let c = s.last();
        let w = with_pending_space(out, pending);
        let r = normalize_state(s).0;
        if is_typographic(c) {
            let f = folded(c);
            assert forall|i: int| 0 <= i < r.len() implies !is_typographic(#[trigger] r[i]) && (is_ws(r[i]) ==> r[i] == ' ') by {
                if i >= w.len() {
                    assert(r[i] == f[i - w.len()]);
                } else if i < out.len() {
                    assert(r[i] == out[i]);
                }
            }
            assert forall|i: int| 0 <= i < r.len() - 1 implies !(#[trigger] r[i] == ' ' && r[i + 1] == ' ') by {
                if i + 1 >= w.len() {
                    assert(r[i + 1] == f[i + 1 - w.len()]);
                } else if i + 1 < out.len() {
                    assert(r[i] == out[i] && r[i + 1] == out[i + 1]);
                } else {
                    assert(r[i] == out[i]);
                }
            }
            if r.len() > 0 {
                if out.len() > 0 {
                    assert(r[0] == out[0]);
                } else {
                    assert(r[0] == f[0]);
                }
                assert(r.last() == f.last());
            }
        } else if !is_ws(c) {
            assert forall|i: int| 0 <= i < r.len() implies !is_typographic(#[trigger] r[i]) && (is_ws(r[i]) ==> r[i] == ' ') by {
                if i < out.len() {
                    assert(r[i] == out[i]);
                }
            }
            assert forall|i: int| 0 <= i < r.len() - 1 implies !(#[trigger] r[i] == ' ' && r[i + 1] == ' ') by {
                if i + 1 < out.len() {
                    assert(r[i] == out[i] && r[i + 1] == out[i + 1]);
                } else if i + 1 < w.len() {
                    assert(r[i] == out[i]);
                }
            }
            if out.len() > 0 {
                assert(r[0] == out[0]);
            }
        }
    }
}

proof fn lemma_normal_prefix_state(s: Seq<char>, i: int)
    requires
        is_normal(s),
        0 <= i <= s.len(),
    ensures
        normalize_state(s.take(i)) == if i > 0 && s[i - 1] == ' ' {
            (s.take(i - 1), true)
        } else {
            (s.take(i), false)
        },
    decreases i,
{
    if i > 0 {
        lemma_normal_prefix_state(s, i - 1);
        assert(s.take(i).drop_last() =~= s.take(i - 1));
        assert(s.take(i).last() == s[i - 1]);
        let c = s[i - 1];
        assert(!is_typographic(c));
        if c == ' ' {
            assert(is_ws(c));
        } else {
            assert(!is_ws(c));
            if i > 1 && s[i - 2] == ' ' {
                assert(s.take(i - 2).push(' ').push(c) =~= s.take(i));
                assert(s.take(i - 2).len() > 0) by {
                    if i - 2 == 0 {
                        assert(s[0] != ' ');
                    }
                }
            } else {
                assert(s.take(i - 1).push(c) =~= s.take(i));
            }
        }
    }
}

/// Normalising twice is normalising once: the form evidence and section text are compared
/// in is a fixed point.
pub proof fn law_normalize_idempotent(s: Seq<char>)
    ensures
        normalize_of(normalize_of(s)) == normalize_of(s),
{
    let n = normalize_of(s);
    lemma_normalize_state_normal(s);
    lemma_normal_prefix_state(n, n.len() as int);
    assert(n.take(n.len() as int) =~= n);
}

proof fn lemma_normalize_state_empty(s: Seq<char>)
    ensures
        normalize_state(s).0.len() == 0 <==> forall|i: int| 0 <= i < s.len() ==> is_ws(#[trigger] s[i]),
    decreases s.len(),
{
    if s.len() > 0 {
        lemma_normalize_state_empty(s.drop_last());
        let c = s.last();
        assert(is_ws(c) ==> !is_typographic(c));
        if forall|i: int| 0 <= i < s.len() ==> is_ws(#[trigger] s[i]) {
            assert forall|i: int| 0 <= i < s.drop_last().len() implies is_ws(#[trigger] s.drop_last()[i]) by {
                assert(s.drop_last()[i] == s[i]);
            }
        } else if !is_ws(c) {
            assert(s[s.len() - 1] == c);
        } else {
            let i = choose|i: int| 0 <= i < s.len() && !is_ws(#[trigger] s[i]);
            assert(i < s.len() - 1);
            assert(s.drop_last()[i] == s[i]);
        }
    }
}

/// What [`normalize`] gives is in normal form (no typographic characters, no whitespace but
/// single spaces between words, none leading or trailing), and it is empty exactly when the
/// input is all whitespace.
pub proof fn law_normalize_shape(s: Seq<char>)
    ensures
        is_normal(normalize_of(s)),
        normalize_of(s).len() == 0 <==> forall|i: int| 0 <= i < s.len() ==> is_ws(#[trigger] s[i]),
{
    lemma_normalize_state_normal(s);
    lemma_normalize_state_empty(s);
}

/// Which candidate the `k`-th grounded entity came from.
pub open spec fn grounded_source(vals: Seq<Seq<char>>, hay_lower: Seq<char>, max: usize, k: int) -> int
    decreases vals.len(),
{
    if vals.len() == 0 {
        0
    } else if k < grounded_of(vals.drop_last(), hay_lower, max).len() {
        grounded_source(vals.drop_last(), hay_lower, max, k)
    } else {
        vals.len() - 1
    }
}

proof fn lemma_grounded_of(vals: Seq<Seq<char>>, hay_lower: Seq<char>, max: usize, k: int)
    requires
        0 <= k < grounded_of(vals, hay_lower, max).len(),
    ensures
        0 <= grounded_source(vals, hay_lower, max, k) < vals.len(),
        entity_grounded(vals[grounded_source(vals, hay_lower, max, k)], hay_lower),
        grounded_of(vals, hay_lower, max)[k] == clip_of(vals[grounded_source(vals, hay_lower, max, k)], max as nat),
    decreases vals.len(),
{
    let p = grounded_of(vals.drop_last(), hay_lower, max);
    if k < p.len() {
        lemma_grounded_of(vals.drop_last(), hay_lower, max, k);
        let j = grounded_source(vals.drop_last(), hay_lower, max, k);
        assert(vals[j] == vals.drop_last()[j]);
    }
}

/// Every entity a category keeps is the clipped form of a candidate that occurs in the
/// section (the one [`grounded_source`] names), and a category never keeps more than its
/// cap.
pub proof fn law_kept_entities_are_grounded(vals: Seq<Seq<char>>, hay_lower: Seq<char>, caps: Caps, k: int)
    requires
        0 <= k < entities_kept_of(vals, hay_lower, caps).len(),
    ensures
        entities_kept_of(vals, hay_lower, caps).len() <= caps.entities_per_category,
        ({
            let c = entity_candidates(vals);
            let j = grounded_source(c, hay_lower, caps.max_chars, k);
            &&& 0 <= j < c.len()
            &&& entity_grounded(c[j], hay_lower)
            &&& entities_kept_of(vals, hay_lower, caps)[k] == clip_of(c[j], caps.max_chars as nat)
        }),
{
    lemma_grounded_of(entity_candidates(vals), hay_lower, caps.max_chars, k);
}

/// A capped list never holds more than its cap, nor a string longer than the longest
/// allowed.
pub proof fn law_lists_respect_caps(vals: Seq<Seq<char>>, cap: usize, max: usize)
    ensures
        capped_of(vals, cap, max).len() <= cap,
        forall|i: int| 0 <= i < capped_of(vals, cap, max).len() ==> (#[trigger] capped_of(vals, cap, max)[i]).len() <= max,
{
}

/// Which mentioned date the `k`-th kept date came from.
pub open spec fn date_source(ds: Seq<DateView>, hay: Seq<char>, max: usize, k: int) -> int
    decreases ds.len(),
{
    if ds.len() == 0 {
        0
    } else if k < dates_kept_of(ds.drop_last(), hay, max).len() {
        date_source(ds.drop_last(), hay, max, k)
    } else {
        ds.len() - 1
    }
}

/// Every date a card keeps is grounded in the section once its iso is normalised (the
/// date [`date_source`] names), with its raw text and evidence trimmed and clipped.
pub proof fn law_kept_dates_are_grounded(ds: Seq<DateView>, hay: Seq<char>, max: usize, k: int)
    requires
        0 <= k < dates_kept_of(ds, hay, max).len(),
    ensures
        ({
            let j = date_source(ds, hay, max, k);
            let iso = normalize_iso_of(ds[j].1, ds[j].2);
            &&& 0 <= j < ds.len()
            &&& date_grounded(ds[j].0, iso, ds[j].2, ds[j].3, hay)
            &&& dates_kept_of(ds, hay, max)[k] == (clip_of(trim(ds[j].0), max as nat), iso, ds[j].2, clip_of(trim(ds[j].3), max as nat))
        }),
    decreases ds.len(),
{
    let p = dates_kept_of(ds.drop_last(), hay, max);
    if k < p.len() {
        law_kept_dates_are_grounded(ds.drop_last(), hay, max, k);
        let j = date_source(ds.drop_last(), hay, max, k);
        assert(ds[j] == ds.drop_last()[j]);
    }
}

} // verus!

verus! {

/// The number of entities a card lists, over all categories.
pub open spec fn entity_count(e: Entities) -> nat {
    e.people@.len() + e.orgs@.len() + e.products@.len() + e.technologies@.len() + e.files_paths@.len()
        + e.commands@.len()
}

proof fn lemma_dedupe_len(vals: Seq<Seq<char>>, ci: bool)
    ensures
        dedupe_of(vals, ci).len() <= vals.len(),
    decreases vals.len(),
{
    if vals.len() > 0 {
        lemma_dedupe_len(vals.drop_last(), ci);
    }
}

proof fn lemma_ungrounded_len(category: Seq<char>, vals: Seq<Seq<char>>, hay_lower: Seq<char>)
    ensures
        ungrounded_of(category, vals, hay_lower).len() <= vals.len(),
    decreases vals.len(),
{
    if vals.len() > 0 {
        lemma_ungrounded_len(category, vals.drop_last(), hay_lower);
    }
}

proof fn lemma_category_dropped_len(category: Seq<char>, vals: Seq<String>, hay_lower: Seq<char>)
    ensures
        ungrounded_of(category, entity_candidates(texts(vals)), hay_lower).len() <= vals.len(),
{
    lemma_dedupe_len(trim_all(texts(vals)), false);
    lemma_ungrounded_len(category, entity_candidates(texts(vals)), hay_lower);
}

proof fn lemma_dates_dropped_len(ds: Seq<DateView>, hay: Seq<char>)
    ensures
        dates_dropped_of(ds, hay).len() <= ds.len(),
    decreases ds.len(),
{
    if ds.len() > 0 {
        lemma_dates_dropped_len(ds.drop_last(), hay);
    }
}

/// Validation drops no more dates than the card lists, and no more entities.
pub proof fn lemma_dropped_bounded(text: Seq<char>, summary: SectionSummary, caps: Caps, v: Validated)
    requires
        validated_fits(text, summary, caps, v),
    ensures
        v.dropped_dates@.len() <= summary.mentioned_dates@.len(),
        v.dropped_entities@.len() <= entity_count(summary.entities),
{
    let hay = normalize_of(text);
    let hay_lower = lowercase_of(hay);
    let e = summary.entities;
    lemma_dates_dropped_len(date_views(summary.mentioned_dates@), hay);
    lemma_category_dropped_len("people"@, e.people@, hay_lower);
    lemma_category_dropped_len("orgs"@, e.orgs@, hay_lower);
    lemma_category_dropped_len("products"@, e.products@, hay_lower);
    lemma_category_dropped_len("technologies"@, e.technologies@, hay_lower);
    lemma_category_dropped_len("files_paths"@, e.files_paths@, hay_lower);
    lemma_category_dropped_len("commands"@, e.commands@, hay_lower);
    assert(texts(v.dropped_entities@).len() == v.dropped_entities@.len());
    assert(date_views(v.dropped_dates@).len() == v.dropped_dates@.len());
}

} // verus!

verus! {

/// Every entity of a kept list is the clipped form of a candidate of `vals` that occurs in
/// the section, and the list is within its cap.
pub open spec fn entities_grounded_in(kept: Seq<Seq<char>>, vals: Seq<Seq<char>>, hay_lower: Seq<char>, caps: Caps) -> bool {
    &&& kept.len() <= caps.entities_per_category
    &&& forall|k: int| #![trigger grounded_source(entity_candidates(vals), hay_lower, caps.max_chars, k)]
        0 <= k < kept.len() ==> {
        let c = entity_candidates(vals);
        let j = grounded_source(c, hay_lower, caps.max_chars, k);
        &&& 0 <= j < c.len()
        &&& entity_grounded(c[j], hay_lower)
        &&& kept[k] == clip_of(c[j], caps.max_chars as nat)
    }
}

/// Every kept date is the trimmed, clipped form of a date of `ds` that is grounded in the
/// section once its iso is normalised.
pub open spec fn dates_grounded_in(kept: Seq<DateView>, ds: Seq<DateView>, hay: Seq<char>, max: usize) -> bool {
    forall|k: int| #![trigger date_source(ds, hay, max, k)] 0 <= k < kept.len() ==> {
        let j = date_source(ds, hay, max, k);
        let iso = normalize_iso_of(ds[j].1, ds[j].2);
        &&& 0 <= j < ds.len()
        &&& date_grounded(ds[j].0, iso, ds[j].2, ds[j].3, hay)
        &&& kept[k] == (clip_of(trim(ds[j].0), max as nat), iso, ds[j].2, clip_of(trim(ds[j].3), max as nat))
    }
}

proof fn lemma_dates_split_len(ds: Seq<DateView>, hay: Seq<char>, max: usize)
    ensures
        dates_kept_of(ds, hay, max).len() + dates_dropped_of(ds, hay).len() == ds.len(),
    decreases ds.len(),
{
    if ds.len() > 0 {
        lemma_dates_split_len(ds.drop_last(), hay, max);
    }
}

proof fn lemma_entities_grounded_in(vals: Seq<Seq<char>>, hay_lower: Seq<char>, caps: Caps)
    ensures
        entities_grounded_in(entities_kept_of(vals, hay_lower, caps), vals, hay_lower, caps),
{
    let kept = entities_kept_of(vals, hay_lower, caps);
    if kept.len() > 0 {
        law_kept_entities_are_grounded(vals, hay_lower, caps, 0);
    }
    assert forall|k: int| #![trigger grounded_source(entity_candidates(vals), hay_lower, caps.max_chars, k)]
        0 <= k < kept.len() implies {
        let c = entity_candidates(vals);
        let j = grounded_source(c, hay_lower, caps.max_chars, k);
        &&& 0 <= j < c.len()
        &&& entity_grounded(c[j], hay_lower)
        &&& kept[k] == clip_of(c[j], caps.max_chars as nat)
    } by {
        law_kept_entities_are_grounded(vals, hay_lower, caps, k);
    }
}

/// With a positive `max_chars`, a card is refused exactly when its `tldr` or its `summary` is
/// blank once trimmed: clipping never empties a text that has something in it.
pub proof fn law_refused_exactly_when_blank(s: SectionSummary, caps: Caps)
    requires
        caps.max_chars > 0,
    ensures
        rejects(s, caps) <==> (trim(s.tldr@).len() == 0 || trim(s.summary@).len() == 0),
{
}

/// Every string of a kept entity list is at most `max_chars` long.
proof fn lemma_grounded_within(kept: Seq<Seq<char>>, vals: Seq<Seq<char>>, hay_lower: Seq<char>, caps: Caps)
    requires
        entities_grounded_in(kept, vals, hay_lower, caps),
    ensures
        forall|k: int| 0 <= k < kept.len() ==> (#[trigger] kept[k]).len() <= caps.max_chars,
{
    assert forall|k: int| 0 <= k < kept.len() implies (#[trigger] kept[k]).len() <= caps.max_chars by {
        let c = entity_candidates(vals);
        let j = grounded_source(c, hay_lower, caps.max_chars, k);
        assert(kept[k] == clip_of(c[j], caps.max_chars as nat));
    }
}

/// Each string of `vals` is at most `max` characters long.
pub open spec fn all_within(vals: Seq<Seq<char>>, max: usize) -> bool {
    forall|i: int| 0 <= i < vals.len() ==> (#[trigger] vals[i]).len() <= max
}

/// What validation accepts is within every cap and grounded in the section: each list holds
/// at most its cap and no string longer than allowed (the summary at most twice that); every
/// kept entity, category by category, and every kept date is found in the section text; when
/// the card lists no more dates than the cap, every date is either kept or dropped; and the
/// fields reported as trimmed are exactly those that lost entries to their cap.
pub proof fn law_validated_card_is_capped_and_grounded(text: Seq<char>, s: SectionSummary, caps: Caps, v: Validated)
    requires
        validated_fits(text, s, caps, v),
    ensures
        ({
            let hay = normalize_of(text);
            let hay_lower = lowercase_of(hay);
            let e = entities_view(v.summary.entities);
            &&& v.summary.tldr@.len() <= caps.max_chars
            &&& v.summary.summary@.len() <= 2 * caps.max_chars
            &&& v.summary.keywords@.len() <= caps.keywords
            &&& v.summary.questions_answered@.len() <= caps.questions
            &&& v.summary.decisions@.len() <= caps.decisions
            &&& v.summary.action_items@.len() <= caps.action_items
            &&& all_within(texts(v.summary.keywords@), caps.max_chars)
            &&& all_within(texts(v.summary.questions_answered@), caps.max_chars)
            &&& all_within(texts(v.summary.decisions@), caps.max_chars)
            &&& all_within(texts(v.summary.action_items@), caps.max_chars)
            &&& all_within(e.0, caps.max_chars) && all_within(e.1, caps.max_chars)
            &&& all_within(e.2, caps.max_chars) && all_within(e.3, caps.max_chars)
            &&& all_within(e.4, caps.max_chars) && all_within(e.5, caps.max_chars)
            &&& v.summary.mentioned_dates@.len() <= caps.dates
            &&& texts(v.trimmed@) == trimmed_names(s, hay_lower, hay, caps)
            &&& (keyword_candidates(s).len() > caps.keywords <==> v.summary.keywords@.len() < keyword_candidates(s).len())
            &&& (list_candidates(s.questions_answered@).len() > caps.questions
                <==> v.summary.questions_answered@.len() < list_candidates(s.questions_answered@).len())
            &&& (list_candidates(s.decisions@).len() > caps.decisions
                <==> v.summary.decisions@.len() < list_candidates(s.decisions@).len())
            &&& (list_candidates(s.action_items@).len() > caps.action_items
                <==> v.summary.action_items@.len() < list_candidates(s.action_items@).len())
            &&& (dates_kept_of(date_views(s.mentioned_dates@), hay, caps.max_chars).len() > caps.dates
                <==> v.summary.mentioned_dates@.len() < dates_kept_of(date_views(s.mentioned_dates@), hay, caps.max_chars).len())
            &&& entities_grounded_in(e.0, texts(s.entities.people@), hay_lower, caps)
            &&& entities_grounded_in(e.1, texts(s.entities.orgs@), hay_lower, caps)
            &&& entities_grounded_in(e.2, texts(s.entities.products@), hay_lower, caps)
            &&& entities_grounded_in(e.3, texts(s.entities.technologies@), hay_lower, caps)
            &&& entities_grounded_in(e.4, texts(s.entities.files_paths@), hay_lower, caps)
            &&& entities_grounded_in(e.5, texts(s.entities.commands@), hay_lower, caps)
            &&& dates_grounded_in(date_views(v.summary.mentioned_dates@), date_views(s.mentioned_dates@), hay, caps.max_chars)
            &&& (s.mentioned_dates@.len() <= caps.dates ==> v.summary.mentioned_dates@.len() + v.dropped_dates@.len()
                == s.mentioned_dates@.len())
        }),
{
    let hay = normalize_of(text);
    let hay_lower = lowercase_of(hay);
    let ds = date_views(s.mentioned_dates@);
    let kept = dates_kept_of(ds, hay, caps.max_chars);
    law_lists_respect_caps(keyword_candidates(s), caps.keywords, caps.max_chars);
    law_lists_respect_caps(list_candidates(s.questions_answered@), caps.questions, caps.max_chars);
    law_lists_respect_caps(list_candidates(s.decisions@), caps.decisions, caps.max_chars);
    law_lists_respect_caps(list_candidates(s.action_items@), caps.action_items, caps.max_chars);
    assert(texts(v.summary.keywords@).len() == v.summary.keywords@.len());
    assert(texts(v.summary.questions_answered@).len() == v.summary.questions_answered@.len());
    assert(texts(v.summary.decisions@).len() == v.summary.decisions@.len());
    assert(texts(v.summary.action_items@).len() == v.summary.action_items@.len());
    assert(date_views(v.summary.mentioned_dates@).len() == v.summary.mentioned_dates@.len());
    assert(date_views(v.dropped_dates@).len() == v.dropped_dates@.len());
    lemma_entities_grounded_in(texts(s.entities.people@), hay_lower, caps);
    lemma_entities_grounded_in(texts(s.entities.orgs@), hay_lower, caps);
    lemma_entities_grounded_in(texts(s.entities.products@), hay_lower, caps);
    lemma_entities_grounded_in(texts(s.entities.technologies@), hay_lower, caps);
    lemma_entities_grounded_in(texts(s.entities.files_paths@), hay_lower, caps);
    lemma_entities_grounded_in(texts(s.entities.commands@), hay_lower, caps);
    let e = entities_view(v.summary.entities);
    lemma_grounded_within(e.0, texts(s.entities.people@), hay_lower, caps);
    lemma_grounded_within(e.1, texts(s.entities.orgs@), hay_lower, caps);
    lemma_grounded_within(e.2, texts(s.entities.products@), hay_lower, caps);
    lemma_grounded_within(e.3, texts(s.entities.technologies@), hay_lower, caps);
    lemma_grounded_within(e.4, texts(s.entities.files_paths@), hay_lower, caps);
    lemma_grounded_within(e.5, texts(s.entities.commands@), hay_lower, caps);
    let vd = date_views(v.summary.mentioned_dates@);
    assert forall|k: int| #![trigger date_source(ds, hay, caps.max_chars, k)] 0 <= k < vd.len() implies {
        let j = date_source(ds, hay, caps.max_chars, k);
        let iso = normalize_iso_of(ds[j].1, ds[j].2);
        &&& 0 <= j < ds.len()
        &&& date_grounded(ds[j].0, iso, ds[j].2, ds[j].3, hay)
        &&& vd[k] == (clip_of(trim(ds[j].0), caps.max_chars as nat), iso, ds[j].2, clip_of(trim(ds[j].3), caps.max_chars as nat))
    } by {
        assert(vd[k] == kept[k]);
        law_kept_dates_are_grounded(ds, hay, caps.max_chars, k);
    }
    lemma_dates_split_len(ds, hay, caps.max_chars);
}

} // verus!
