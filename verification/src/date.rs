//! Calendar dates with minute precision, the fixed textual date format, and
//! the ordering used by date predicates.
//!
//! The canonical textual format is `YYYY-MM-DD HH:MM` (zero padded); the
//! parser also accepts the day-first spelling `DD-MM-YYYY HH:MM`, with one or
//! two digits for day, month, hour and minute and exactly four digits for the
//! year. Quote characters (`"` and `'`) are stripped from the input before
//! parsing.

use vstd::prelude::*;

use crate::chars::{
    digit_char, digit_of, digit_val, is_digit, is_digit_char, is_quote_char, lemma_filter_all,
    str_chars, unquote, unquoted,
};
use vstd::string::StringExecFns;

verus! {

/// A calendar date and time of day, minute precision, no time zone.
#[derive(Clone, Copy, Debug, PartialEq, Eq, Structural)]
pub struct DateTime {
    pub year: u16,
    pub month: u8,
    pub day: u8,
    pub hour: u8,
    pub minute: u8,
}

/// A parse failure: the input does not spell a date in the fixed format,
/// or it spells an impossible calendar date.
#[derive(Clone, Copy, Debug, PartialEq, Eq, Structural)]
pub enum ParseError {
    /// The input does not have the shape `D-M-YYYY H:MM` or `YYYY-M-D H:MM`.
    Malformed,
    /// The shape is right but a field is out of range (month 13, hour 24, ...).
    OutOfRange,
}

/// Whether `y` is a leap year in the proleptic Gregorian calendar.
pub open spec fn spec_is_leap_year(y: int) -> bool {
    y % 4 == 0 && (y % 100 != 0 || y % 400 == 0)
}

/// Number of days in month `m` of year `y` (`m` between 1 and 12).
pub open spec fn spec_days_in_month(y: int, m: int) -> int {
    if m == 2 {
        if spec_is_leap_year(y) {
            29
        } else {
            28
        }
    } else if m == 4 || m == 6 || m == 9 || m == 11 {
        30
    } else {
        31
    }
}

impl DateTime {
    /// A well-formed date: real calendar day, hour below 24, minute below 60,
    /// year at most four digits.
    pub open spec fn valid(self) -> bool {
        &&& self.year <= 9999
        &&& 1 <= self.month <= 12
        &&& 1 <= self.day <= spec_days_in_month(self.year as int, self.month as int)
        &&& self.hour <= 23
        &&& self.minute <= 59
    }

    /// Strict chronological order: year, then month, day, hour, minute.
    pub open spec fn spec_lt(self, other: Self) -> bool {
        if self.year != other.year {
            self.year < other.year
        } else if self.month != other.month {
            self.month < other.month
        } else if self.day != other.day {
            self.day < other.day
        } else if self.hour != other.hour {
            self.hour < other.hour
        } else {
            self.minute < other.minute
        }
    }

    /// Chronological order or equality.
    pub open spec fn spec_le(self, other: Self) -> bool {
        self.spec_lt(other) || self == other
    }
}

impl DateTime {
    /// Whether the fields name a real calendar date and time of day.
    pub fn is_valid(&self) -> (r: bool)
        ensures
            r == self.valid(),
    {
        self.year <= 9999 && 1 <= self.month && self.month <= 12 && 1 <= self.day && self.hour
            <= 23 && self.minute <= 59 && self.day <= days_in_month(self.year, self.month)
    }
}

/// Whether `year` is a leap year.
pub fn is_leap_year(year: u16) -> (r: bool)
    ensures
        r == spec_is_leap_year(year as int),
{
    year % 4 == 0 && (year % 100 != 0 || year % 400 == 0)
}

/// Number of days in month `month` of year `year`.
pub fn days_in_month(year: u16, month: u8) -> (r: u8)
    requires
        1 <= month <= 12,
    ensures
        r == spec_days_in_month(year as int, month as int),
{
    if month == 2 {
        if is_leap_year(year) {
            29
        } else {
            28
        }
    } else if month == 4 || month == 6 || month == 9 || month == 11 {
        30
    } else {
        31
    }
}

/// Strict chronological comparison of two dates.
pub fn date_lt(a: &DateTime, b: &DateTime) -> (r: bool)
    ensures
        r == a.spec_lt(*b),
{
    if a.year != b.year {
        a.year < b.year
    } else if a.month != b.month {
        a.month < b.month
    } else if a.day != b.day {
        a.day < b.day
    } else if a.hour != b.hour {
        a.hour < b.hour
    } else {
        a.minute < b.minute
    }
}

/// Chronological comparison allowing equality.
pub fn date_le(a: &DateTime, b: &DateTime) -> (r: bool)
    ensures
        r == a.spec_le(*b),
{
    if a.year != b.year {
        a.year < b.year
    } else if a.month != b.month {
        a.month < b.month
    } else if a.day != b.day {
        a.day < b.day
    } else if a.hour != b.hour {
        a.hour < b.hour
    } else {
        a.minute <= b.minute
    }
}

/// Equality of two dates.
pub fn date_eq(a: &DateTime, b: &DateTime) -> (r: bool)
    ensures
        r == (*a == *b),
{
    a.year == b.year && a.month == b.month && a.day == b.day && a.hour == b.hour && a.minute
        == b.minute
}

/// Length of the run of digit characters starting at position `i` of `s`.
pub open spec fn drun(s: Seq<char>, i: int) -> nat
    decreases s.len() - i,
{
    if 0 <= i < s.len() && is_digit_char(s[i]) {
        1 + drun(s, i + 1)
    } else {
        0
    }
}

/// `drun` is pinned down by its endpoints: all digits before `j`, none at `j`.
proof fn lemma_drun_char(s: Seq<char>, i: int, j: int)
    requires
        0 <= i <= j <= s.len(),
        forall|m: int| i <= m < j ==> is_digit_char(s[m]),
        j == s.len() || !is_digit_char(s[j]),
    ensures
        drun(s, i) == j - i,
    decreases j - i,
{
    if i < j {
        lemma_drun_char(s, i + 1, j);
    }
}

/// Value of the decimal digits of `s` at positions `i` (inclusive) to `j`
/// (exclusive), most significant first.
pub open spec fn dval(s: Seq<char>, i: int, j: int) -> int
    decreases j - i,
{
    if j <= i {
        0
    } else {
        dval(s, i, j - 1) * 10 + digit_of(s[j - 1])
    }
}

proof fn lemma_dval1(s: Seq<char>, i: int)
    ensures
        dval(s, i, i + 1) == digit_of(s[i]),
{
    assert(dval(s, i, i) == 0);
}

proof fn lemma_dval2(s: Seq<char>, i: int)
    ensures
        dval(s, i, i + 2) == 10 * digit_of(s[i]) + digit_of(s[i + 1]),
{
    assert(dval(s, i, i) == 0);
    assert(dval(s, i, i + 1) == digit_of(s[i]));
}

proof fn lemma_dval4(s: Seq<char>, i: int)
    ensures
        dval(s, i, i + 4) == 1000 * digit_of(s[i]) + 100 * digit_of(s[i + 1]) + 10 * digit_of(
            s[i + 2],
        ) + digit_of(s[i + 3]),
{
    assert(dval(s, i, i) == 0);
    assert(dval(s, i, i + 1) == digit_of(s[i]));
    assert(dval(s, i, i + 2) == dval(s, i, i + 1) * 10 + digit_of(s[i + 1]));
    assert(dval(s, i, i + 3) == dval(s, i, i + 2) * 10 + digit_of(s[i + 2]));
    assert(dval(s, i, i + 4) == dval(s, i, i + 3) * 10 + digit_of(s[i + 3]));
}

/// The raw numeric fields `(year, month, day, hour, minute)` spelled by `s`,
/// or `None` when `s` does not have the shape of the fixed date format.
///
/// The shape is `F1-F2-F3 H:MM` where the fields are digit runs: either
/// day-first (`F1` day of one or two digits, `F3` year of exactly four) or
/// year-first (`F1` year of exactly four digits, `F3` day of one or two);
/// the month `F2`, the hour and the minute each have one or two digits.
pub open spec fn spec_date_shape(s: Seq<char>) -> Option<(int, int, int, int, int)> {
    let a = drun(s, 0) as int;
    let b = drun(s, a + 1) as int;
    let p = a + 1 + b + 1;
    let c = drun(s, p) as int;
    let q = p + c + 1;
    let dw = drun(s, q) as int;
    let u = q + dw + 1;
    let e = drun(s, u) as int;
    if !(a == 1 || a == 2 || a == 4) {
        None
    } else if !(a < s.len() && s[a] == '-') {
        None
    } else if !(b == 1 || b == 2) {
        None
    } else if !(a + 1 + b < s.len() && s[a + 1 + b] == '-') {
        None
    } else if !(if a == 4 {
        c == 1 || c == 2
    } else {
        c == 4
    }) {
        None
    } else if !(p + c < s.len() && s[p + c] == ' ') {
        None
    } else if !(dw == 1 || dw == 2) {
        None
    } else if !(q + dw < s.len() && s[q + dw] == ':') {
        None
    } else if !(e == 1 || e == 2) {
        None
    } else if u + e != s.len() {
        None
    } else {
        let f1 = dval(s, 0, a);
        let f2 = dval(s, a + 1, a + 1 + b);
        let f3 = dval(s, p, p + c);
        let f4 = dval(s, q, q + dw);
        let f5 = dval(s, u, u + e);
        if a == 4 {
            Some((f1, f2, f3, f4, f5))
        } else {
            Some((f3, f2, f1, f4, f5))
        }
    }
}

/// The date spelled by `s` in the fixed format, or `None` when `s` is
/// malformed or spells an impossible date.
pub open spec fn spec_parse_date(s: Seq<char>) -> Option<DateTime> {
    match spec_date_shape(s) {
        None => None,
        Some(f) => {
            let (y, mo, d, h, mi) = f;
            if y <= 9999 && 1 <= mo <= 12 && 1 <= d <= spec_days_in_month(y, mo) && h <= 23 && mi
                <= 59 {
                Some(
                    DateTime {
                        year: y as u16,
                        month: mo as u8,
                        day: d as u8,
                        hour: h as u8,
                        minute: mi as u8,
                    },
                )
            } else {
                None
            }
        },
    }
}

/// End of the digit run starting at `i`: the first position at or after `i`
/// that is past the end or holds a non-digit.
fn scan_digits(v: &Vec<char>, i: usize) -> (j: usize)
    requires
        i <= v@.len(),
    ensures
        i <= j <= v@.len(),
        drun(v@, i as int) == j - i,
        forall|m: int| i <= m < j ==> is_digit_char(v@[m]),
{
    let mut j = i;
    while j < v.len() && is_digit(v[j])
        invariant
            i <= j <= v@.len(),
            forall|m: int| i <= m < j ==> is_digit_char(v@[m]),
        decreases v@.len() - j,
    {
        j = j + 1;
    }
    proof {
        lemma_drun_char(v@, i as int, j as int);
    }
    j
}

/// Value of the digits of `v` at positions `i` to `j` (exclusive), at most
/// four of them.
fn read_val(v: &Vec<char>, i: usize, j: usize) -> (r: u32)
    requires
        i <= j <= v@.len(),
        j - i <= 4,
        forall|m: int| i <= m < j ==> is_digit_char(v@[m]),
    ensures
        r as int == dval(v@, i as int, j as int),
        r <= 9999,
{
    let w = j - i;
    if w == 0 {
        0
    } else if w == 1 {
        proof {
            lemma_dval1(v@, i as int);
        }
        digit_val(v[i]) as u32
    } else if w == 2 {
        proof {
            lemma_dval2(v@, i as int);
        }
        10 * (digit_val(v[i]) as u32) + digit_val(v[i + 1]) as u32
    } else if w == 3 {
        proof {
            lemma_dval2(v@, i as int);
            assert(dval(v@, i as int, i + 3) == dval(v@, i as int, i + 2) * 10 + digit_of(
                v@[i + 2],
            ));
        }
        100 * (digit_val(v[i]) as u32) + 10 * (digit_val(v[i + 1]) as u32) + digit_val(
            v[i + 2],
        ) as u32
    } else {
        proof {
            lemma_dval4(v@, i as int);
        }
        1000 * (digit_val(v[i]) as u32) + 100 * (digit_val(v[i + 1]) as u32) + 10 * (digit_val(
            v[i + 2],
        ) as u32) + digit_val(v[i + 3]) as u32
    }
}

/// Parses the characters of a date in the fixed format, already stripped of
/// quotes; `None` when the shape is wrong or a field is out of range.
pub fn parse_date_chars(v: &Vec<char>) -> (r: Option<DateTime>)
    ensures
        r == spec_parse_date(v@),
        r matches Some(d) ==> d.valid(),
{
    let n = v.len();
    let a = scan_digits(v, 0);
    if !(a == 1 || a == 2 || a == 4) {
        return None;
    }
    if !(a < n && v[a] == '-') {
        return None;
    }
    let b_end = scan_digits(v, a + 1);
    let b = b_end - (a + 1);
    if !(b == 1 || b == 2) {
        return None;
    }
    if !(b_end < n && v[b_end] == '-') {
        return None;
    }
    let p = b_end + 1;
    let c_end = scan_digits(v, p);
    let c = c_end - p;
    if a == 4 {
        if !(c == 1 || c == 2) {
            return None;
        }
    } else {
        if c != 4 {
            return None;
        }
    }
    if !(c_end < n && v[c_end] == ' ') {
        return None;
    }
    let q = c_end + 1;
    let d_end = scan_digits(v, q);
    let dw = d_end - q;
    if !(dw == 1 || dw == 2) {
        return None;
    }
    if !(d_end < n && v[d_end] == ':') {
        return None;
    }
    let u = d_end + 1;
    let e_end = scan_digits(v, u);
    let e = e_end - u;
    if !(e == 1 || e == 2) {
        return None;
    }
    if e_end != n {
        return None;
    }
    let f1 = read_val(v, 0, a);
    let f2 = read_val(v, a + 1, b_end);
    let f3 = read_val(v, p, c_end);
    let f4 = read_val(v, q, d_end);
    let f5 = read_val(v, u, e_end);
    let (year, month_v, day_v) = if a == 4 {
        (f1, f2, f3)
    } else {
        (f3, f2, f1)
    };
    let hour = f4;
    let minute = f5;
    if !(1 <= month_v && month_v <= 12) {
        return None;
    }
    let y16 = year as u16;
    let m8 = month_v as u8;
    if !(1 <= day_v && day_v <= days_in_month(y16, m8) as u32) {
        return None;
    }
    if !(hour <= 23) {
        return None;
    }
    if !(minute <= 59) {
        return None;
    }
    Some(
        DateTime {
            year: y16,
            month: m8,
            day: day_v as u8,
            hour: hour as u8,
            minute: minute as u8,
        },
    )
}

/// Parses a date string in the fixed format, after stripping quote
/// characters. `Err(ParseError::Malformed)` comes exactly on inputs whose
/// shape is wrong; `Err(ParseError::OutOfRange)` exactly on inputs of the
/// right shape whose fields do not name a real date or time of day.
pub fn parse(input: &str) -> (r: Result<DateTime, ParseError>)
    ensures
        r is Ok <==> spec_parse_date(unquoted(input@)) is Some,
        r matches Ok(d) ==> spec_parse_date(unquoted(input@)) == Some(d) && d.valid(),
        r == Err::<DateTime, ParseError>(ParseError::Malformed) <==> spec_date_shape(
            unquoted(input@),
        ) is None,
        r == Err::<DateTime, ParseError>(ParseError::OutOfRange) <==> (spec_date_shape(
            unquoted(input@),
        ) is Some && spec_parse_date(unquoted(input@)) is None),
{
    let cs = str_chars(input);
    let v = unquote(&cs);
    match parse_date_chars(&v) {
        Some(d) => Ok(d),
        None => {
            if shape_ok(&v) {
                Err(ParseError::OutOfRange)
            } else {
                Err(ParseError::Malformed)
            }
        },
    }
}

/// The two decimal digits of a value between 0 and 99, zero padded.
pub open spec fn two_digits(n: int) -> Seq<char> {
    seq![digit_char(n / 10), digit_char(n % 10)]
}

/// The canonical text of a date: `YYYY-MM-DD HH:MM`, zero padded.
pub open spec fn spec_format(d: DateTime) -> Seq<char> {
    two_digits(d.year as int / 100) + two_digits(d.year as int % 100) + seq!['-'] + two_digits(
        d.month as int,
    ) + seq!['-'] + two_digits(d.day as int) + seq![' '] + two_digits(d.hour as int) + seq![':']
        + two_digits(d.minute as int)
}

proof fn lemma_digit_char_of(n: int)
    requires
        0 <= n <= 9,
    ensures
        digit_of(digit_char(n)) == n,
        is_digit_char(digit_char(n)),
        !is_quote_char(digit_char(n)),
{
}

/// Appends the digit character of `n` to `s`.
fn push_digit(s: &mut String, n: u8)
    requires
        n <= 9,
    ensures
        final(s)@ == old(s)@.push(digit_char(n as int)),
{
    if n == 0 {
        s.append("0");
        proof {
            reveal_strlit("0");
            assert(final(s)@ =~= old(s)@.push(digit_char(n as int)));
        }
    } else if n == 1 {
        s.append("1");
        proof {
            reveal_strlit("1");
            assert(final(s)@ =~= old(s)@.push(digit_char(n as int)));
        }
    } else if n == 2 {
        s.append("2");
        proof {
            reveal_strlit("2");
            assert(final(s)@ =~= old(s)@.push(digit_char(n as int)));
        }
    } else if n == 3 {
        s.append("3");
        proof {
            reveal_strlit("3");
            assert(final(s)@ =~= old(s)@.push(digit_char(n as int)));
        }
    } else if n == 4 {
        s.append("4");
        proof {
            reveal_strlit("4");
            assert(final(s)@ =~= old(s)@.push(digit_char(n as int)));
        }
    } else if n == 5 {
        s.append("5");
        proof {
            reveal_strlit("5");
            assert(final(s)@ =~= old(s)@.push(digit_char(n as int)));
        }
    } else if n == 6 {
        s.append("6");
        proof {
            reveal_strlit("6");
            assert(final(s)@ =~= old(s)@.push(digit_char(n as int)));
        }
    } else if n == 7 {
        s.append("7");
        proof {
            reveal_strlit("7");
            assert(final(s)@ =~= old(s)@.push(digit_char(n as int)));
        }
    } else if n == 8 {
        s.append("8");
        proof {
            reveal_strlit("8");
            assert(final(s)@ =~= old(s)@.push(digit_char(n as int)));
        }
    } else {
        s.append("9");
        proof {
            reveal_strlit("9");
            assert(final(s)@ =~= old(s)@.push(digit_char(n as int)));
        }
    }
}

/// Appends the two zero-padded digits of `n` to `s`.
fn push_two_digits(s: &mut String, n: u8)
    requires
        n <= 99,
    ensures
        final(s)@ == old(s)@ + two_digits(n as int),
{
    push_digit(s, n / 10);
    push_digit(s, n % 10);
    proof {
        assert(final(s)@ =~= old(s)@ + two_digits(n as int));
    }
}

/// Renders a date in the canonical format `YYYY-MM-DD HH:MM`, zero padded.
pub fn format_date(d: &DateTime) -> (r: String)
    requires
        d.valid(),
    ensures
        r@ == spec_format(*d),
{
    let mut s = String::new();
    push_two_digits(&mut s, (d.year / 100) as u8);
    push_two_digits(&mut s, (d.year % 100) as u8);
    s.append("-");
    push_two_digits(&mut s, d.month);
    s.append("-");
    push_two_digits(&mut s, d.day);
    s.append(" ");
    push_two_digits(&mut s, d.hour);
    s.append(":");
    push_two_digits(&mut s, d.minute);
    proof {
        reveal_strlit("-");
        reveal_strlit(" ");
        reveal_strlit(":");
        assert(s@ =~= spec_format(*d));
    }
    s
}

/// The sixteen characters of the canonical text of `d`, written out.
pub open spec fn fmt_chars(d: DateTime) -> Seq<char> {
    seq![
        digit_char((d.year as int / 100) / 10),
        digit_char((d.year as int / 100) % 10),
        digit_char((d.year as int % 100) / 10),
        digit_char((d.year as int % 100) % 10),
        '-',
        digit_char(d.month as int / 10),
        digit_char(d.month as int % 10),
        '-',
        digit_char(d.day as int / 10),
        digit_char(d.day as int % 10),
        ' ',
        digit_char(d.hour as int / 10),
        digit_char(d.hour as int % 10),
        ':',
        digit_char(d.minute as int / 10),
        digit_char(d.minute as int % 10),
    ]
}

proof fn lemma_format_literal(d: DateTime)
    requires
        d.valid(),
    ensures
        spec_format(d) == fmt_chars(d),
        fmt_chars(d).len() == 16,
{
    assert(spec_format(d) =~= fmt_chars(d));
}

proof fn lemma_format_unquoted(d: DateTime)
    requires
        d.valid(),
    ensures
        unquoted(spec_format(d)) == spec_format(d),
{
    lemma_format_literal(d);
    let s = fmt_chars(d);
    assert forall|i: int| 0 <= i < s.len() implies !is_quote_char(s[i]) by {
        if i == 4 || i == 7 {
            assert(s[i] == '-');
        } else if i == 10 {
            assert(s[i] == ' ');
        } else if i == 13 {
            assert(s[i] == ':');
        } else {
            if i == 0 {
                lemma_digit_char_of((d.year as int / 100) / 10);
            } else if i == 1 {
                lemma_digit_char_of((d.year as int / 100) % 10);
            } else if i == 2 {
                lemma_digit_char_of((d.year as int % 100) / 10);
            } else if i == 3 {
                lemma_digit_char_of((d.year as int % 100) % 10);
            } else if i == 5 {
                lemma_digit_char_of(d.month as int / 10);
            } else if i == 6 {
                lemma_digit_char_of(d.month as int % 10);
            } else if i == 8 {
                lemma_digit_char_of(d.day as int / 10);
            } else if i == 9 {
                lemma_digit_char_of(d.day as int % 10);
            } else if i == 11 {
                lemma_digit_char_of(d.hour as int / 10);
            } else if i == 12 {
                lemma_digit_char_of(d.hour as int % 10);
            } else if i == 14 {
                lemma_digit_char_of(d.minute as int / 10);
            } else {
                lemma_digit_char_of(d.minute as int % 10);
            }
        }
    }
    lemma_filter_all(s, |c: char| !is_quote_char(c));
}

proof fn lemma_format_digits(d: DateTime)
    requires
        d.valid(),
    ensures
        forall|i: int|
            (0 <= i < 4 || 5 <= i < 7 || 8 <= i < 10 || 11 <= i < 13 || 14 <= i < 16)
                ==> is_digit_char(#[trigger] fmt_chars(d)[i]),
        fmt_chars(d)[4] == '-' && fmt_chars(d)[7] == '-' && fmt_chars(d)[10] == ' ' && fmt_chars(
            d,
        )[13] == ':',
{
    let s = fmt_chars(d);
    assert forall|i: int|
        (0 <= i < 4 || 5 <= i < 7 || 8 <= i < 10 || 11 <= i < 13 || 14 <= i < 16)
            implies is_digit_char(#[trigger] s[i]) by {
        if i == 0 {
            lemma_digit_char_of((d.year as int / 100) / 10);
        } else if i == 1 {
            lemma_digit_char_of((d.year as int / 100) % 10);
        } else if i == 2 {
            lemma_digit_char_of((d.year as int % 100) / 10);
        } else if i == 3 {
            lemma_digit_char_of((d.year as int % 100) % 10);
        } else if i == 5 {
            lemma_digit_char_of(d.month as int / 10);
        } else if i == 6 {
            lemma_digit_char_of(d.month as int % 10);
        } else if i == 8 {
            lemma_digit_char_of(d.day as int / 10);
        } else if i == 9 {
            lemma_digit_char_of(d.day as int % 10);
        } else if i == 11 {
            lemma_digit_char_of(d.hour as int / 10);
        } else if i == 12 {
            lemma_digit_char_of(d.hour as int % 10);
        } else if i == 14 {
            lemma_digit_char_of(d.minute as int / 10);
        } else {
            lemma_digit_char_of(d.minute as int % 10);
        }
    }
}

proof fn lemma_format_runs(d: DateTime)
    requires
        d.valid(),
    ensures
        drun(fmt_chars(d), 0) == 4,
        drun(fmt_chars(d), 5) == 2,
        drun(fmt_chars(d), 8) == 2,
        drun(fmt_chars(d), 11) == 2,
        drun(fmt_chars(d), 14) == 2,
{
    lemma_format_digits(d);
    let s = fmt_chars(d);
    assert(drun(s, 16) == 0);
    assert(drun(s, 15) == 1);
    assert(drun(s, 14) == 2);
    assert(drun(s, 13) == 0);
    assert(drun(s, 12) == 1);
    assert(drun(s, 11) == 2);
    assert(drun(s, 10) == 0);
    assert(drun(s, 9) == 1);
    assert(drun(s, 8) == 2);
    assert(drun(s, 7) == 0);
    assert(drun(s, 6) == 1);
    assert(drun(s, 5) == 2);
    assert(drun(s, 4) == 0);
    assert(drun(s, 3) == 1);
    assert(drun(s, 2) == 2);
    assert(drun(s, 1) == 3);
    assert(drun(s, 0) == 4);
}

proof fn lemma_format_vals(d: DateTime)
    requires
        d.valid(),
    ensures
        dval(fmt_chars(d), 0, 4) == d.year as int,
        dval(fmt_chars(d), 5, 7) == d.month as int,
        dval(fmt_chars(d), 8, 10) == d.day as int,
        dval(fmt_chars(d), 11, 13) == d.hour as int,
        dval(fmt_chars(d), 14, 16) == d.minute as int,
{
    let s = fmt_chars(d);
    let y = d.year as int;
    let a0 = (y / 100) / 10;
    let a1 = (y / 100) % 10;
    let a2 = (y % 100) / 10;
    let a3 = (y % 100) % 10;
    lemma_digit_char_of(a0);
    lemma_digit_char_of(a1);
    lemma_digit_char_of(a2);
    lemma_digit_char_of(a3);
    lemma_digit_char_of(d.month as int / 10);
    lemma_digit_char_of(d.month as int % 10);
    lemma_digit_char_of(d.day as int / 10);
    lemma_digit_char_of(d.day as int % 10);
    lemma_digit_char_of(d.hour as int / 10);
    lemma_digit_char_of(d.hour as int % 10);
    lemma_digit_char_of(d.minute as int / 10);
    lemma_digit_char_of(d.minute as int % 10);
    lemma_dval4(s, 0);
    lemma_dval2(s, 5);
    lemma_dval2(s, 8);
    lemma_dval2(s, 11);
    lemma_dval2(s, 14);
    assert(dval(s, 0, 4) == y) by {
        assert(dval(s, 0, 4) == 1000 * a0 + 100 * a1 + 10 * a2 + a3);
        assert(10 * a0 + a1 == y / 100);
        assert(10 * a2 + a3 == y % 100);
        assert(100 * (y / 100) + y % 100 == y);
    }
}

#[verifier::rlimit(80)]
proof fn lemma_format_shape(d: DateTime)
    requires
        d.valid(),
    ensures
        spec_date_shape(fmt_chars(d)) == Some(
            (d.year as int, d.month as int, d.day as int, d.hour as int, d.minute as int),
        ),
{
    lemma_format_digits(d);
    lemma_format_runs(d);
    lemma_format_vals(d);
    let s = fmt_chars(d);
    assert(s.len() == 16);
    assert(drun(s, 0) == 4 && drun(s, 5) == 2 && drun(s, 8) == 2 && drun(s, 11) == 2 && drun(
        s,
        14,
    ) == 2);
}

proof fn lemma_parse_of_shape(s: Seq<char>, d: DateTime)
    requires
        d.valid(),
        spec_date_shape(s) == Some(
            (d.year as int, d.month as int, d.day as int, d.hour as int, d.minute as int),
        ),
    ensures
        spec_parse_date(s) == Some(d),
{
}

/// Round trip through the fixed format: formatting a valid date and parsing
/// the text back yields the same date; the canonical text holds no quote
/// characters, so quote stripping leaves it whole.
pub proof fn lemma_format_parse_round_trip(d: DateTime)
    requires
        d.valid(),
    ensures
        unquoted(spec_format(d)) == spec_format(d),
        spec_parse_date(spec_format(d)) == Some(d),
{
    lemma_format_literal(d);
    lemma_format_unquoted(d);
    lemma_format_shape(d);
    lemma_parse_of_shape(fmt_chars(d), d);
}

/// Whether `v` has the shape of the fixed date format, fields in range or not.
fn shape_ok(v: &Vec<char>) -> (r: bool)
    ensures
        r == (spec_date_shape(v@) is Some),
{
    let n = v.len();
    let a = scan_digits(v, 0);
    if !(a == 1 || a == 2 || a == 4) {
        return false;
    }
    if !(a < n && v[a] == '-') {
        return false;
    }
    let b_end = scan_digits(v, a + 1);
    let b = b_end - (a + 1);
    if !(b == 1 || b == 2) {
        return false;
    }
    if !(b_end < n && v[b_end] == '-') {
        return false;
    }
    let p = b_end + 1;
    let c_end = scan_digits(v, p);
    let c = c_end - p;
    if a == 4 {
        if !(c == 1 || c == 2) {
            return false;
        }
    } else {
        if c != 4 {
            return false;
        }
    }
    if !(c_end < n && v[c_end] == ' ') {
        return false;
    }
    let q = c_end + 1;
    let d_end = scan_digits(v, q);
    let dw = d_end - q;
    if !(dw == 1 || dw == 2) {
        return false;
    }
    if !(d_end < n && v[d_end] == ':') {
        return false;
    }
    let u = d_end + 1;
    let e_end = scan_digits(v, u);
    let e = e_end - u;
    if !(e == 1 || e == 2) {
        return false;
    }
    if e_end != n {
        return false;
    }
    true
}

} // verus!
