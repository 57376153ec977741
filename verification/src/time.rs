//! Time as data.
//!
//! Nothing here reads a clock: timestamps arrive as values from the caller,
//! which is what makes every run reproducible and lets a competition day be
//! closed at a boundary rather than whenever a job happened to run.
use vstd::prelude::*;

use chrono::Datelike;

use vstd::string::StringSliceAdditionalSpecFns;
use vstd::utf8::{encode_utf8, is_ascii_chars, is_ascii_chars_encode_utf8};

use crate::error::DomainError;
use crate::money::pow10;
use crate::text::{all_digits, digit_char, is_digit, nat_digits, push_zero_padded, string_of, zero_pad, zeros};

verus! {

/// A point in time, milliseconds since the Unix epoch, supplied by the caller.
#[derive(Debug, Clone, Copy, PartialEq, Eq, Structural, PartialOrd, Ord, Hash)]
pub struct Timestamp(i64);

impl View for Timestamp {
    type V = int;

    closed spec fn view(&self) -> int {
        self.0 as int
    }
}

impl Timestamp {
    pub fn from_millis(millis: i64) -> (t: Timestamp)
        ensures
            t@ == millis,
    {
        Timestamp(millis)
    }

    pub fn as_millis(self) -> (m: i64)
        ensures
            m == self@,
    {
        self.0
    }
}

/// The first and last years a calendar date may carry.
pub open spec fn min_year() -> int {
    -262143
}

pub open spec fn max_year() -> int {
    262142
}

/// Proleptic Gregorian leap years.
pub open spec fn is_leap(y: int) -> bool {
    (y % 4 == 0 && y % 100 != 0) || y % 400 == 0
}

pub open spec fn days_in_month(y: int, m: int) -> int {
    if m == 2 {
        if is_leap(y) {
            29
        } else {
            28
        }
    } else if m == 4 || m == 6 || m == 9 || m == 11 {
        30
    } else {
        31
    }
}

/// `(y, m, d)` names a day that exists, within the supported years.
pub open spec fn date_ok(y: int, m: int, d: int) -> bool {
    &&& min_year() <= y <= max_year()
    &&& 1 <= m <= 12
    &&& 1 <= d <= days_in_month(y, m)
}

/// The calendar day after `(y, m, d)`, if it is still within the supported years.
pub open spec fn next_date(y: int, m: int, d: int) -> Option<(int, int, int)> {
    if d < days_in_month(y, m) {
        Some((y, m, d + 1))
    } else if m < 12 {
        Some((y, m + 1, 1))
    } else if y < max_year() {
        Some((y + 1, 1, 1))
    } else {
        None
    }
}

/// The date `NaiveDate::parse_from_str(s, "%Y-%m-%d")` reads, as `(year, month, day)`.
pub uninterp spec fn parsed_date(s: Seq<char>) -> Option<(i32, u32, u32)>;

/// chrono's `NaiveDate::parse_from_str` with the ISO `%Y-%m-%d` format,
/// returning the date's fields. Claimed: the result is determined by the text
/// (named `parsed_date`), any date it returns exists, and the text `%Y-%m-%d`
/// writes for an existing date reads back as that date (`%Y` reads an
/// unsigned year of up to four digits, or a signed one of any length; `%m`
/// and `%d` read up to two digits each).
#[verifier::external_body]
fn chrono_parse_iso(s: &str) -> (r: Option<(i32, u32, u32)>)
    ensures
        r == parsed_date(s@),
        r matches Some((y, m, d)) ==> date_ok(y as int, m as int, d as int),
        forall|y: int, m: int, d: int|
            date_ok(y, m, d) && #[trigger] iso_text(y, m, d) == s@ ==> r == Some(
                (y as i32, m as u32, d as u32),
            ),
{
    match chrono::NaiveDate::parse_from_str(s, "%Y-%m-%d") {
        Ok(d) => Some((d.year(), d.month(), d.day())),
        Err(_) => None,
    }
}

/// chrono's `NaiveDate::from_ymd_opt`: claimed to succeed exactly when the
/// calendar day exists within chrono's supported years.
#[verifier::external_body]
fn chrono_date_exists(y: i32, m: u32, d: u32) -> (b: bool)
    ensures
        b == date_ok(y as int, m as int, d as int),
{
    chrono::NaiveDate::from_ymd_opt(y, m, d).is_some()
}

/// chrono's `NaiveDate::succ_opt`: claimed to give the next calendar day, or
/// `None` after the last supported one.
#[verifier::external_body]
fn chrono_succ(y: i32, m: u32, d: u32) -> (r: Option<(i32, u32, u32)>)
    requires
        date_ok(y as int, m as int, d as int),
    ensures
        match next_date(y as int, m as int, d as int) {
            Some((ny, nm, nd)) => r matches Some((ry, rm, rd)) && ry == ny && rm == nm && rd
                == nd,
            None => r is None,
        },
{
    match chrono::NaiveDate::from_ymd_opt(y, m, d) {
        Some(day) => match day.succ_opt() {
            Some(n) => Some((n.year(), n.month(), n.day())),
            None => None,
        },
        None => None,
    }
}

/// A competition day: the key daily results and leaderboards are filed under.
/// Fields in calendar order, so the derived order is chronological.
#[derive(Debug, Clone, Copy, PartialEq, Eq, Structural, PartialOrd, Ord, Hash)]
pub struct TradingDay {
    year: i32,
    month: u32,
    day: u32,
}

impl View for TradingDay {
    type V = (int, int, int);

    closed spec fn view(&self) -> (int, int, int) {
        (self.year as int, self.month as int, self.day as int)
    }
}

/// Chronological order on calendar days.
pub open spec fn day_before(a: (int, int, int), b: (int, int, int)) -> bool {
    a.0 < b.0 || (a.0 == b.0 && (a.1 < b.1 || (a.1 == b.1 && a.2 < b.2)))
}

/// `{:04}` of a signed year: a `-` counts toward the width.
pub open spec fn signed_pad4(v: int) -> Seq<char> {
    if v < 0 {
        seq!['-'] + zero_pad((-v) as nat, 3)
    } else {
        zero_pad(v as nat, 4)
    }
}

/// chrono's `%Y`: four digits inside 0..=9999, otherwise an explicit sign.
pub open spec fn year_text(y: int) -> Seq<char> {
    if 0 <= y <= 9999 {
        zero_pad(y as nat, 4)
    } else if y > 9999 {
        seq!['+'] + zero_pad(y as nat, 4)
    } else {
        seq!['-'] + zero_pad((-y) as nat, 4)
    }
}

/// `YYYY-MM-DD` as chrono's `%Y-%m-%d` writes it.
pub open spec fn iso_text(y: int, m: int, d: int) -> Seq<char> {
    year_text(y) + seq!['-'] + zero_pad(m as nat, 2) + seq!['-'] + zero_pad(d as nat, 2)
}

/// `{year:04}-{month:02}-{day:02}`, the spelling of a refused `from_ymd`.
pub open spec fn ymd_text(y: int, m: int, d: int) -> Seq<char> {
    signed_pad4(y) + seq!['-'] + zero_pad(m as nat, 2) + seq!['-'] + zero_pad(d as nat, 2)
}

fn magnitude32(v: i32) -> (m: u64)
    ensures
        m == if v < 0 {
            -v
        } else {
            v as int
        },
{
    if v < 0 {
        ((-(v as i64)) as u64)
    } else {
        v as u64
    }
}

fn ymd_string(y: i32, m: u32, d: u32) -> (s: String)
    ensures
        s@ == ymd_text(y as int, m as int, d as int),
{
    let mut out: Vec<char> = Vec::new();
    if y < 0 {
        out.push('-');
        push_zero_padded(&mut out, magnitude32(y), 3);
    } else {
        push_zero_padded(&mut out, y as u64, 4);
    }
    out.push('-');
    push_zero_padded(&mut out, m as u64, 2);
    out.push('-');
    push_zero_padded(&mut out, d as u64, 2);
    proof {
        assert(out@ =~= ymd_text(y as int, m as int, d as int));
    }
    string_of(&out)
}

impl TradingDay {
    #[verifier::type_invariant]
    spec fn inv(self) -> bool {
        date_ok(self.year as int, self.month as int, self.day as int)
    }

    /// Parses strict ISO-8601 `YYYY-MM-DD`. The length check rejects
    /// `2026-8-1`, which chrono alone would accept: two spellings of one day
    /// would key two leaderboards for the same date.
    pub fn parse(s: &str) -> (r: Result<TradingDay, DomainError>)
        ensures
            s.spec_bytes().len() as usize != 10 ==> (r matches Err(DomainError::ParseDate(t)) && t@ == s@),
            s.spec_bytes().len() as usize == 10 ==> match parsed_date(s@) {
                Some((y, m, d)) => r matches Ok(day) && day@ == (y as int, m as int, d as int),
                None => r matches Err(DomainError::ParseDate(t)) && t@ == s@,
            },
            forall|y: int, m: int, d: int|
                date_ok(y, m, d) && 0 <= y <= 9999 && #[trigger] iso_text(y, m, d) == s@ ==> (r matches Ok(
                    day,
                ) && day@ == (y, m, d)),
    {
        proof {
            assert forall|y: int, m: int, d: int|
                date_ok(y, m, d) && 0 <= y <= 9999 && #[trigger] iso_text(y, m, d) == s@ implies s.spec_bytes().len()
                    == 10 by {
                lemma_iso_text_short(y, m, d);
            }
        }
        if s.len() != 10 {
            return Err(DomainError::ParseDate(s.to_owned()));
        }
        match chrono_parse_iso(s) {
            Some((year, month, day)) => Ok(TradingDay { year, month, day }),
            None => Err(DomainError::ParseDate(s.to_owned())),
        }
    }

    pub fn from_ymd(year: i32, month: u32, day: u32) -> (r: Result<TradingDay, DomainError>)
        ensures
            date_ok(year as int, month as int, day as int) ==> (r matches Ok(t) && t@ == (
                year as int,
                month as int,
                day as int,
            )),
            !date_ok(year as int, month as int, day as int) ==> (r matches Err(
                DomainError::ParseDate(t),
            ) && t@ == ymd_text(year as int, month as int, day as int)),
    {
        if chrono_date_exists(year, month, day) {
            Ok(TradingDay { year, month, day })
        } else {
            Err(DomainError::ParseDate(ymd_string(year, month, day)))
        }
    }

    /// The next calendar day. Not the next *trading* day: here a competition
    /// day is whatever the operator closes.
    pub fn succ(self) -> (r: Result<TradingDay, DomainError>)
        ensures
            date_ok(self@.0, self@.1, self@.2),
            match next_date(self@.0, self@.1, self@.2) {
                Some(n) => r matches Ok(t) && t@ == n,
                None => r matches Err(DomainError::ParseDate(t)) && t@ == iso_text(
                    self@.0,
                    self@.1,
                    self@.2,
                ),
            },
    {
        proof {
            use_type_invariant(&self);
        }
        match chrono_succ(self.year, self.month, self.day) {
            Some((year, month, day)) => Ok(TradingDay { year, month, day }),
            None => Err(DomainError::ParseDate(self.render())),
        }
    }

    pub fn year(self) -> (y: i32)
        ensures
            y == self@.0,
    {
        self.year
    }

    pub fn month(self) -> (m: u32)
        ensures
            m == self@.1,
    {
        self.month
    }

    pub fn day(self) -> (d: u32)
        ensures
            d == self@.2,
    {
        self.day
    }

    /// Strictly earlier in the calendar.
    pub fn before(self, other: TradingDay) -> (b: bool)
        ensures
            b == day_before(self@, other@),
    {
        self.year < other.year || (self.year == other.year && (self.month < other.month || (
        self.month == other.month && self.day < other.day)))
    }

    /// `YYYY-MM-DD`.
    pub fn render(self) -> (s: String)
        ensures
            s@ == iso_text(self@.0, self@.1, self@.2),
    {
        let mut out: Vec<char> = Vec::new();
        let y = self.year;
        if 0 <= y && y <= 9999 {
            push_zero_padded(&mut out, y as u64, 4);
        } else if y > 9999 {
            out.push('+');
            push_zero_padded(&mut out, y as u64, 4);
        } else {
            out.push('-');
            push_zero_padded(&mut out, magnitude32(y), 4);
        }
        out.push('-');
        push_zero_padded(&mut out, self.month as u64, 2);
        out.push('-');
        push_zero_padded(&mut out, self.day as u64, 2);
        proof {
            assert(out@ =~= iso_text(self@.0, self@.1, self@.2));
        }
        string_of(&out)
    }
}

/// Days with the same date are the same day, and of two different days one
/// comes first.
pub proof fn lemma_day_order(a: TradingDay, b: TradingDay)
    ensures
        a@ == b@ ==> a == b,
        a != b ==> day_before(a@, b@) || day_before(b@, a@),
{
}

pub proof fn lemma_day_before_irreflexive(a: (int, int, int))
    ensures
        !day_before(a, a),
{
}

pub proof fn lemma_day_before_transitive(a: (int, int, int), b: (int, int, int), c: (int, int, int))
    requires
        day_before(a, b),
        day_before(b, c),
    ensures
        day_before(a, c),
{
}


/// The canonical digits of a number below `10^k`: at most `k` of them, all
/// decimal digits.
pub proof fn lemma_short_digits(n: nat, k: nat)
    requires
        k >= 1,
        n < pow10(k),
    ensures
        nat_digits(n).len() <= k,
        all_digits(nat_digits(n)),
    decreases n,
{
    if n >= 10 {
        assert(k >= 2) by {
            if k == 1 {
                assert(pow10(1) == 10 * pow10(0));
            }
        }
        assert(pow10(k) == 10 * pow10((k - 1) as nat));
        lemma_short_digits(n / 10, (k - 1) as nat);
        let c = digit_char((n % 10) as int);
        assert(is_digit(c));
        let t = nat_digits(n / 10);
        assert(nat_digits(n) == t.push(c));
        assert forall|i: int| 0 <= i < t.push(c).len() implies is_digit(#[trigger] t.push(c)[i]) by {
            if i < t.len() {
                assert(t.push(c)[i] == t[i]);
            }
        }
    } else {
        assert(is_digit(digit_char(n as int)));
    }
}

/// `n` padded to `width`, when it has no more than `width` digits: exactly
/// `width` characters, all ASCII digits.
pub proof fn lemma_pad_exact(n: nat, width: nat)
    requires
        width >= 1,
        n < pow10(width),
    ensures
        zero_pad(n, width as int).len() == width,
        forall|i: int|
            0 <= i < width ==> '0' <= #[trigger] zero_pad(n, width as int)[i] <= '9',
{
    lemma_short_digits(n, width);
    let ds = nat_digits(n);
    let z = zeros(width - ds.len());
    assert(zero_pad(n, width as int) == z + ds);
    assert forall|i: int| 0 <= i < width implies '0' <= #[trigger] zero_pad(n, width as int)[i] <= '9' by {
        if i < z.len() {
            assert((z + ds)[i] == z[i]);
        } else {
            assert((z + ds)[i] == ds[i - z.len()]);
            assert(is_digit(ds[i - z.len()]));
        }
    }
}

/// A day of years 0 to 9999 is written in exactly ten ASCII characters.
pub proof fn lemma_iso_text_short(y: int, m: int, d: int)
    requires
        0 <= y <= 9999,
        1 <= m <= 12,
        1 <= d <= 31,
    ensures
        iso_text(y, m, d).len() == 10,
        encode_utf8(iso_text(y, m, d)).len() == 10,
{
    assert(pow10(4) == 10000) by {
        reveal_with_fuel(pow10, 5);
    }
    assert(pow10(2) == 100) by {
        reveal_with_fuel(pow10, 3);
    }
    lemma_pad_exact(y as nat, 4);
    lemma_pad_exact(m as nat, 2);
    lemma_pad_exact(d as nat, 2);
    let t = iso_text(y, m, d);
    let a = zero_pad(y as nat, 4);
    let b = zero_pad(m as nat, 2);
    let c = zero_pad(d as nat, 2);
    assert(t == a + seq!['-'] + b + seq!['-'] + c);
    assert(t.len() == 10);
    assert forall|i: int| 0 <= i < t.len() implies '\0' <= #[trigger] t[i] <= '\u{7f}' by {
        if i < 4 {
            assert(t[i] == a[i]);
        } else if i == 4 {
        } else if i < 7 {
            assert(t[i] == b[i - 5]);
        } else if i == 7 {
        } else {
            assert(t[i] == c[i - 8]);
        }
    }
    assert(is_ascii_chars(t));
    is_ascii_chars_encode_utf8(t);
}

} // verus!
