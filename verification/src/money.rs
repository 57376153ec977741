//! Exact fixed-point money. No float ever touches these values.
//!
//! All monetary quantities share one scale of four decimal places, so a
//! notional is `px.raw * qty` — an exact multiply with no division and no
//! rounding anywhere in the core. Arithmetic goes through `checked_*` methods so
//! overflow is a `Result` the caller must handle rather than a wrap.
use vstd::prelude::*;

use crate::error::DomainError;
use crate::text::{
    all_digits, chars_of, digit_char, digit_to_char, digit_val, digits_value, is_digit,
    is_ws, lemma_digits_value_nonneg, lemma_digits_value_prefix, nat_digits, push_decimal,
    string_of, trim, trim_bounds, trim_end, trim_start,
};

verus! {

/// Fixed-point scale for every monetary quantity: four decimal places.
pub const SCALE: i64 = 10_000;

/// Number of decimal places implied by [`SCALE`].
pub const SCALE_DIGITS: usize = 4;

/// A signed amount of money: a cash balance, a notional, a fee, or a P&L.
#[derive(Debug, Clone, Copy, PartialEq, Eq, Structural, PartialOrd, Ord, Hash)]
pub struct Money(i64);

/// A strictly positive price.
#[derive(Debug, Clone, Copy, PartialEq, Eq, Structural, PartialOrd, Ord, Hash)]
pub struct Px(i64);

/// A non-negative, whole number of shares. Unscaled — no fractional shares.
#[derive(Debug, Clone, Copy, PartialEq, Eq, Structural, PartialOrd, Ord, Hash)]
pub struct Qty(i64);

impl View for Money {
    type V = int;

    closed spec fn view(&self) -> int {
        self.0 as int
    }
}

impl View for Px {
    type V = int;

    closed spec fn view(&self) -> int {
        self.0 as int
    }
}

impl View for Qty {
    type V = int;

    closed spec fn view(&self) -> int {
        self.0 as int
    }
}

pub broadcast group group_money {
    Money::lemma_range,
    Px::lemma_range,
    Qty::lemma_range,
    Money::lemma_from_spec,
    Px::lemma_from_spec,
    Qty::lemma_from_spec,
}

/// Every `i64` is a valid amount of money.
pub open spec fn money_range(v: int) -> bool {
    i64::MIN <= v <= i64::MAX
}

impl Money {
    /// The range every `Money` lies in.
    pub broadcast proof fn lemma_range(m: Money)
        ensures
            #![trigger m@]
            money_range(m@),
    {
    }

    /// Construct from raw scaled units. Any `i64` is a valid `Money`.
    pub fn from_raw(raw: i64) -> (m: Money)
        ensures
            m@ == raw,
            m == Money::from_spec(raw as int),
    {
        Money(raw)
    }

    pub fn zero() -> (m: Money)
        ensures
            m@ == 0,
            m == Money::from_spec(0),
    {
        Money(0)
    }

    pub fn raw(self) -> (r: i64)
        ensures
            r == self@,
    {
        self.0
    }

    pub fn parse(s: &str) -> (r: Result<Money, DomainError>)
        ensures
            fixed_result_matches(money_result_view(r), fixed_outcome(s@, true), "cash", s@),
    {
        match parse_fixed("cash", s, true) {
            Ok(raw) => Ok(Money(raw)),
            Err(e) => Err(e),
        }
    }

    pub fn checked_add(self, other: Money) -> (r: Result<Money, DomainError>)
        ensures
            money_range(self@ + other@) ==> r == Ok::<Money, DomainError>(
                Money::from_spec(self@ + other@),
            ),
            !money_range(self@ + other@) ==> r == Err::<Money, DomainError>(
                DomainError::Overflow("cash addition"),
            ),
    {
        match self.0.checked_add(other.0) {
            Some(v) => Ok(Money(v)),
            None => Err(DomainError::Overflow("cash addition")),
        }
    }

    pub fn checked_sub(self, other: Money) -> (r: Result<Money, DomainError>)
        ensures
            money_range(self@ - other@) ==> r == Ok::<Money, DomainError>(
                Money::from_spec(self@ - other@),
            ),
            !money_range(self@ - other@) ==> r == Err::<Money, DomainError>(
                DomainError::Overflow("cash subtraction"),
            ),
    {
        match self.0.checked_sub(other.0) {
            Some(v) => Ok(Money(v)),
            None => Err(DomainError::Overflow("cash subtraction")),
        }
    }

    /// The `Money` with the given value (meaningful within `money_range`).
    pub closed spec fn from_spec(v: int) -> Money {
        Money(v as i64)
    }

    pub broadcast proof fn lemma_from_spec(v: int)
        requires
            money_range(v),
        ensures
            #[trigger] Money::from_spec(v)@ == v,
    {
    }

    pub proof fn lemma_view_injective(a: Money, b: Money)
        ensures
            (a@ == b@) ==> a == b,
    {
    }

    /// Decimal rendering with exactly four places, e.g. `"-2.2500"`.
    pub fn render(self) -> (s: String)
        ensures
            s@ == render_fixed(self@),
    {
        format_fixed(self.0)
    }
}

impl Px {
    #[verifier::type_invariant]
    spec fn inv(self) -> bool {
        self.0 > 0
    }

    /// The finest legal tick, one raw unit: `0.0001`.
    pub fn min_tick() -> (p: Px)
        ensures
            p@ == 1,
    {
        Px(1)
    }

    /// Construct from raw scaled units, rejecting non-positive prices.
    pub fn from_raw(raw: i64) -> (r: Result<Px, DomainError>)
        ensures
            raw > 0 ==> r == Ok::<Px, DomainError>(Px::from_spec(raw as int)),
            raw <= 0 ==> r == Err::<Px, DomainError>(DomainError::NonPositivePx(raw)),
    {
        if raw > 0 {
            Ok(Px(raw))
        } else {
            Err(DomainError::NonPositivePx(raw))
        }
    }

    pub fn raw(self) -> (r: i64)
        ensures
            r == self@,
            r > 0,
    {
        proof {
            use_type_invariant(&self);
        }
        self.0
    }

    pub fn parse(s: &str) -> (r: Result<Px, DomainError>)
        ensures
            match fixed_outcome(s@, false) {
                Ok(v) => if v > 0 {
                    r == Ok::<Px, DomainError>(Px::from_spec(v))
                } else {
                    r == Err::<Px, DomainError>(DomainError::NonPositivePx(v as i64))
                },
                Err(f) => r is Err && fault_matches(r->Err_0, f, "price", s@),
            },
    {
        let raw = parse_fixed("price", s, false)?;
        Px::from_raw(raw)
    }

    /// `price × quantity`, exact: both sides share the scale and `Qty` is
    /// unscaled, so the product is already in `Money` units.
    pub fn notional(self, qty: Qty) -> (r: Result<Money, DomainError>)
        ensures
            money_range(self@ * qty@) ==> r == Ok::<Money, DomainError>(
                Money::from_spec(self@ * qty@),
            ),
            !money_range(self@ * qty@) ==> r == Err::<Money, DomainError>(
                DomainError::Overflow("notional"),
            ),
    {
        match self.0.checked_mul(qty.0) {
            Some(v) => Ok(Money(v)),
            None => Err(DomainError::Overflow("notional")),
        }
    }

    pub broadcast proof fn lemma_range(p: Px)
        ensures
            #![trigger p@]
            money_range(p@),
    {
    }

    /// The `Px` with the given value (meaningful when positive and in range).
    pub closed spec fn from_spec(v: int) -> Px {
        Px(v as i64)
    }

    pub broadcast proof fn lemma_from_spec(v: int)
        requires
            0 < v <= i64::MAX,
        ensures
            #[trigger] Px::from_spec(v)@ == v,
    {
    }

    pub proof fn lemma_view_injective(a: Px, b: Px)
        ensures
            (a@ == b@) ==> a == b,
    {
    }

    pub fn render(self) -> (s: String)
        ensures
            s@ == render_fixed(self@),
    {
        format_fixed(self.0)
    }
}

impl Qty {
    #[verifier::type_invariant]
    spec fn inv(self) -> bool {
        self.0 >= 0
    }

    pub fn zero() -> (q: Qty)
        ensures
            q@ == 0,
            q == Qty::from_spec(0),
    {
        Qty(0)
    }

    /// One share: the finest lot.
    pub fn one() -> (q: Qty)
        ensures
            q@ == 1,
    {
        Qty(1)
    }

    pub fn new(shares: i64) -> (r: Result<Qty, DomainError>)
        ensures
            shares >= 0 ==> r == Ok::<Qty, DomainError>(Qty::from_spec(shares as int)),
            shares < 0 ==> r == Err::<Qty, DomainError>(DomainError::NegativeQty(shares)),
    {
        if shares >= 0 {
            Ok(Qty(shares))
        } else {
            Err(DomainError::NegativeQty(shares))
        }
    }

    pub fn get(self) -> (n: i64)
        ensures
            n == self@,
            n >= 0,
    {
        proof {
            use_type_invariant(&self);
        }
        self.0
    }

    pub fn is_zero(self) -> (b: bool)
        ensures
            b == (self@ == 0),
    {
        self.0 == 0
    }

    pub fn checked_add(self, other: Qty) -> (r: Result<Qty, DomainError>)
        ensures
            self@ + other@ <= i64::MAX ==> r == Ok::<Qty, DomainError>(
                Qty::from_spec(self@ + other@),
            ),
            self@ + other@ > i64::MAX ==> r == Err::<Qty, DomainError>(
                DomainError::Overflow("quantity addition"),
            ),
    {
        proof {
            use_type_invariant(&self);
            use_type_invariant(&other);
        }
        match self.0.checked_add(other.0) {
            Some(v) => Ok(Qty(v)),
            None => Err(DomainError::Overflow("quantity addition")),
        }
    }

    /// Subtraction that cannot produce a short position — going below zero is
    /// a domain error, not a wrap.
    pub fn checked_sub(self, other: Qty) -> (r: Result<Qty, DomainError>)
        ensures
            self@ >= other@ ==> r == Ok::<Qty, DomainError>(Qty::from_spec(self@ - other@)),
            self@ < other@ ==> r == Err::<Qty, DomainError>(
                DomainError::NegativeQty((self@ - other@) as i64),
            ),
    {
        proof {
            use_type_invariant(&self);
            use_type_invariant(&other);
        }
        let n = self.0 - other.0;
        Qty::new(n)
    }

    pub broadcast proof fn lemma_range(q: Qty)
        ensures
            #![trigger q@]
            money_range(q@),
    {
    }

    /// The `Qty` with the given value (meaningful when non-negative and in range).
    pub closed spec fn from_spec(v: int) -> Qty {
        Qty(v as i64)
    }

    pub broadcast proof fn lemma_from_spec(v: int)
        requires
            0 <= v <= i64::MAX,
        ensures
            #[trigger] Qty::from_spec(v)@ == v,
    {
    }

    pub proof fn lemma_view_injective(a: Qty, b: Qty)
        ensures
            (a@ == b@) ==> a == b,
    {
    }

    /// Plain integer rendering, e.g. `"100"`.
    pub fn render(self) -> (s: String)
        ensures
            s@ == int_text(self@),
    {
        let mut out: Vec<char> = Vec::new();
        push_int(&mut out, self.0);
        string_of(&out)
    }
}

// ---- decimal text -----------------------------------------------------------

/// Why a decimal string was refused.
pub enum FixedFault {
    /// Not of the form `digits` or `digits.digits` (after trimming and sign).
    Malformed,
    /// A minus sign where none is allowed.
    Sign,
    /// More than four decimal places.
    Precision,
    /// The value does not fit the scaled `i64`.
    Overflow,
}

/// The sign split: a leading `-` marks a negative, a leading `+` is dropped.
pub open spec fn split_sign(body: Seq<char>) -> (bool, Seq<char>) {
    if body.len() > 0 && body[0] == '-' {
        (true, body.skip(1))
    } else if body.len() > 0 && body[0] == '+' {
        (false, body.skip(1))
    } else {
        (false, body)
    }
}

/// `rest` is `int` `.` `frac` with both sides non-empty digit strings.
pub open spec fn dotted_at(rest: Seq<char>, k: int) -> bool {
    &&& 0 < k < rest.len() - 1
    &&& rest[k] == '.'
    &&& all_digits(rest.take(k))
    &&& all_digits(rest.skip(k + 1))
}

/// The integer and fractional digit strings of an unsigned decimal, if it is one.
pub open spec fn decimal_parts(rest: Seq<char>) -> Option<(Seq<char>, Seq<char>)> {
    if rest.len() > 0 && all_digits(rest) {
        Some((rest, Seq::empty()))
    } else if exists|k: int| dotted_at(rest, k) {
        let k = choose|k: int| dotted_at(rest, k);
        Some((rest.take(k), rest.skip(k + 1)))
    } else {
        None
    }
}

pub open spec fn pow10(n: nat) -> int
    decreases n,
{
    if n == 0 {
        1
    } else {
        10 * pow10((n - 1) as nat)
    }
}

/// What an unsigned decimal denotes in raw scaled units, or why it is refused.
pub open spec fn unsigned_outcome(rest: Seq<char>) -> Result<int, FixedFault> {
    match decimal_parts(rest) {
        None => Err(FixedFault::Malformed),
        Some((int_part, frac_part)) => if frac_part.len() > 4 {
            Err(FixedFault::Precision)
        } else if digits_value(int_part) > i64::MAX {
            Err(FixedFault::Malformed)
        } else {
            let raw = digits_value(int_part) * 10000 + digits_value(frac_part) * pow10(
                (4 - frac_part.len()) as nat,
            );
            if raw > i64::MAX {
                Err(FixedFault::Overflow)
            } else {
                Ok(raw)
            }
        },
    }
}

/// What `parse_fixed` makes of `s`: the raw scaled value, or why it refuses.
///
/// Trim, take the sign, require `digits[.digits]`, at most four places; the
/// integer part must fit an `i64` on its own and the scaled value must too.
pub open spec fn fixed_outcome(s: Seq<char>, allow_negative: bool) -> Result<int, FixedFault> {
    let body = trim(s);
    let (negative, rest) = split_sign(body);
    if body.len() == 0 {
        Err(FixedFault::Malformed)
    } else if negative && !allow_negative {
        Err(FixedFault::Sign)
    } else {
        match unsigned_outcome(rest) {
            Ok(raw) => if negative {
                Ok(-raw)
            } else {
                Ok(raw)
            },
            Err(f) => Err(f),
        }
    }
}

/// The `DomainError` that reports a refusal, for the named field and input.
pub open spec fn fault_matches(e: DomainError, f: FixedFault, field: &'static str, s: Seq<
    char,
>) -> bool {
    match f {
        FixedFault::Malformed => e matches DomainError::ParseDecimal { field: fl, input } && fl
            == field && input@ == s,
        FixedFault::Sign => e matches DomainError::UnexpectedSign { field: fl, input } && fl
            == field && input@ == s,
        FixedFault::Precision => e matches DomainError::TooManyDecimals { field: fl, max, input }
            && fl == field && max == 4 && input@ == s,
        FixedFault::Overflow => e == DomainError::Overflow("decimal parse"),
    }
}

pub open spec fn fixed_result_matches(
    r: Result<int, DomainError>,
    o: Result<int, FixedFault>,
    field: &'static str,
    s: Seq<char>,
) -> bool {
    match o {
        Ok(v) => r == Ok::<int, DomainError>(v),
        Err(f) => r is Err && fault_matches(r->Err_0, f, field, s),
    }
}

pub open spec fn money_result_view(r: Result<Money, DomainError>) -> Result<int, DomainError> {
    match r {
        Ok(m) => Ok(m@),
        Err(e) => Err(e),
    }
}

pub open spec fn raw_result_view(r: Result<i64, DomainError>) -> Result<int, DomainError> {
    match r {
        Ok(v) => Ok(v as int),
        Err(e) => Err(e),
    }
}

fn is_digit_char(c: char) -> (b: bool)
    ensures
        b == is_digit(c),
{
    '0' <= c && c <= '9'
}

fn digit_of(c: char) -> (d: i64)
    requires
        is_digit(c),
    ensures
        d == digit_val(c),
        0 <= d <= 9,
{
    (c as u32 - '0' as u32) as i64
}

/// Are `cs[lo..hi]` all decimal digits?
fn digits_in(cs: &Vec<char>, lo: usize, hi: usize) -> (b: bool)
    requires
        lo <= hi <= cs@.len(),
    ensures
        b == all_digits(cs@.subrange(lo as int, hi as int)),
{
    let mut i = lo;
    while i < hi
        invariant
            lo <= i <= hi <= cs@.len(),
            all_digits(cs@.subrange(lo as int, i as int)),
        decreases hi - i,
    {
        if !is_digit_char(cs[i]) {
            assert(!is_digit(cs@.subrange(lo as int, hi as int)[i - lo]));
            return false;
        }
        assert(cs@.subrange(lo as int, i + 1) =~= cs@.subrange(lo as int, i as int).push(cs@[i as int]));
        i = i + 1;
    }
    true
}

/// The value of the digit string `cs[lo..hi]`, or `None` if it exceeds `i64::MAX`.
fn digits_to_i64(cs: &Vec<char>, lo: usize, hi: usize) -> (r: Option<i64>)
    requires
        lo <= hi <= cs@.len(),
        all_digits(cs@.subrange(lo as int, hi as int)),
    ensures
        r is Some <==> digits_value(cs@.subrange(lo as int, hi as int)) <= i64::MAX,
        r is Some ==> r->0 == digits_value(cs@.subrange(lo as int, hi as int)),
{
    let ghost whole = cs@.subrange(lo as int, hi as int);
    let mut v: i64 = 0;
    let mut i = lo;
    assert(cs@.subrange(lo as int, lo as int) =~= Seq::<char>::empty());
    while i < hi
        invariant
            lo <= i <= hi <= cs@.len(),
            whole == cs@.subrange(lo as int, hi as int),
            all_digits(whole),
            v == digits_value(cs@.subrange(lo as int, i as int)),
            v >= 0,
        decreases hi - i,
    {
        let ghost prefix = cs@.subrange(lo as int, i + 1);
        assert(prefix.drop_last() =~= cs@.subrange(lo as int, i as int));
        assert(prefix =~= whole.take(i + 1 - lo));
        assert(is_digit(whole[i - lo]));
        let d = digit_of(cs[i]);
        let m = v.checked_mul(10);
        match m {
            None => {
                proof {
                    lemma_digits_value_prefix(whole, i + 1 - lo);
                }
                return None;
            },
            Some(m) => match m.checked_add(d) {
                None => {
                    proof {
                        lemma_digits_value_prefix(whole, i + 1 - lo);
                    }
                    return None;
                },
                Some(nv) => {
                    v = nv;
                },
            },
        }
        i = i + 1;
    }
    Some(v)
}

/// Locate the integer and fractional digits of the unsigned decimal `cs[start..hi]`.
fn split_decimal(cs: &Vec<char>, start: usize, hi: usize) -> (r: Option<(usize, usize)>)
    requires
        start <= hi <= cs@.len(),
    ensures
        match decimal_parts(cs@.subrange(start as int, hi as int)) {
            None => r is None,
            Some((i, f)) => r matches Some((int_hi, frac_lo)) && start <= int_hi <= frac_lo <= hi
                && i == cs@.subrange(start as int, int_hi as int) && f == cs@.subrange(
                frac_lo as int,
                hi as int,
            ),
        },
{
    let ghost rest = cs@.subrange(start as int, hi as int);
    let mut k = start;
    while k < hi && cs[k] != '.'
        invariant
            start <= k <= hi <= cs@.len(),
            forall|j: int| start <= j < k ==> cs@[j] != '.',
        decreases hi - k,
    {
        k = k + 1;
    }
    let int_hi = k;
    let frac_lo = if k < hi {
        k + 1
    } else {
        hi
    };
    let shape_ok = if k < hi {
        int_hi > start && frac_lo < hi && digits_in(cs, start, int_hi) && digits_in(
            cs,
            frac_lo,
            hi,
        )
    } else {
        int_hi > start && digits_in(cs, start, int_hi)
    };
    let ghost int_part = cs@.subrange(start as int, int_hi as int);
    let ghost frac_part = cs@.subrange(frac_lo as int, hi as int);
    proof {
        let rk = k - start;
        if k < hi {
            assert(rest[rk] == '.');
            assert(!is_digit(rest[rk]));
            assert(!all_digits(rest));
            assert(rest.take(rk) =~= int_part);
            assert(rest.skip(rk + 1) =~= frac_part);
            if shape_ok {
                assert(dotted_at(rest, rk));
                let kk = choose|kk: int| dotted_at(rest, kk);
                if kk < rk {
                    assert(rest[kk] == cs@[start + kk]);
                } else if kk > rk {
                    assert(is_digit(rest.take(kk)[rk]));
                }
                assert(kk == rk);
                assert(decimal_parts(rest) == Some((int_part, frac_part)));
            } else {
                assert forall|kk: int| !dotted_at(rest, kk) by {
                    if dotted_at(rest, kk) {
                        if kk < rk {
                            assert(rest[kk] == cs@[start + kk]);
                        } else if kk > rk {
                            assert(is_digit(rest.take(kk)[rk]));
                        }
                    }
                }
                assert(decimal_parts(rest) is None);
            }
        } else {
            assert(rest =~= int_part);
            assert forall|kk: int| !dotted_at(rest, kk) by {
                if dotted_at(rest, kk) {
                    assert(rest[kk] == cs@[start + kk]);
                }
            }
            assert(frac_part =~= Seq::<char>::empty());
            if shape_ok {
                assert(decimal_parts(rest) == Some((int_part, frac_part)));
            } else {
                assert(decimal_parts(rest) is None);
            }
        }
    }
    if shape_ok {
        Some((int_hi, frac_lo))
    } else {
        None
    }
}

/// `d × 10^(4 − places)`: a fraction of `places` digits padded to four places.
fn pad_fraction(d: i64, places: usize) -> (r: i64)
    requires
        places <= 4,
        0 <= d < pow10(places as nat),
    ensures
        r == d * pow10((4 - places) as nat),
        0 <= r < 10000,
{
    let mut frac = d;
    let mut p = places;
    proof {
        assert(pow10(0) == 1);
    }
    while p < 4
        invariant
            places <= p <= 4,
            frac == d * pow10((p - places) as nat),
            0 <= frac < pow10(p as nat),
        decreases 4 - p,
    {
        proof {
            assert(pow10((p + 1 - places) as nat) == 10 * pow10((p - places) as nat));
            assert(pow10((p + 1) as nat) == 10 * pow10(p as nat));
            reveal_with_fuel(pow10, 5);
            lemma_pow10_mono(p as nat, 4);
            assert(frac * 10 == d * pow10((p + 1 - places) as nat)) by (nonlinear_arith)
                requires
                    frac == d * pow10((p - places) as nat),
                    pow10((p + 1 - places) as nat) == 10 * pow10((p - places) as nat),
            ;
        }
        frac = frac * 10;
        p = p + 1;
    }
    proof {
        reveal_with_fuel(pow10, 5);
    }
    frac
}

/// The raw scaled value of the unsigned decimal `cs[start..hi]`.
fn unsigned_decimal(cs: &Vec<char>, start: usize, hi: usize) -> (r: Result<i64, FixedFault>)
    requires
        start <= hi <= cs@.len(),
    ensures
        match unsigned_outcome(cs@.subrange(start as int, hi as int)) {
            Ok(v) => r is Ok && r->Ok_0 == v,
            Err(f) => r == Err::<i64, FixedFault>(f),
        },
        r is Ok ==> r->Ok_0 >= 0,
{
    let (int_hi, frac_lo) = match split_decimal(cs, start, hi) {
        Some(p) => p,
        None => {
            return Err(FixedFault::Malformed);
        },
    };
    let ghost int_part = cs@.subrange(start as int, int_hi as int);
    let ghost frac_part = cs@.subrange(frac_lo as int, hi as int);
    if hi - frac_lo > SCALE_DIGITS {
        return Err(FixedFault::Precision);
    }
    let units = match digits_to_i64(cs, start, int_hi) {
        Some(u) => u,
        None => {
            return Err(FixedFault::Malformed);
        },
    };
    proof {
        lemma_digits_value_bound(frac_part);
        lemma_pow10_mono(frac_part.len(), 4);
        reveal_with_fuel(pow10, 5);
    }
    let frac_digits = match digits_to_i64(cs, frac_lo, hi) {
        Some(f) => f,
        None => {
            return Err(FixedFault::Malformed);
        },
    };
    let frac = pad_fraction(frac_digits, hi - frac_lo);
    proof {
        lemma_digits_value_nonneg(int_part);
        assert(frac == digits_value(frac_part) * pow10((4 - frac_part.len()) as nat));
    }
    match units.checked_mul(SCALE) {
        Some(u) => match u.checked_add(frac) {
            Some(v) => Ok(v),
            None => Err(FixedFault::Overflow),
        },
        None => Err(FixedFault::Overflow),
    }
}

/// Parse a decimal string into raw scaled units.
///
/// Strict on purpose: `1.23456` is an error rather than a silent truncation,
/// `.5` and `1.` are errors rather than guesses, and whitespace inside is an
/// error. A price we had to interpret is a position we did not mean to take.
fn parse_fixed(field: &'static str, s: &str, allow_negative: bool) -> (r: Result<
    i64,
    DomainError,
>)
    ensures
        fixed_result_matches(raw_result_view(r), fixed_outcome(s@, allow_negative), field, s@),
{
    let cs = chars_of(s);
    let (lo, hi) = trim_bounds(&cs);
    let ghost body = trim(s@);
    if lo == hi {
        return Err(DomainError::ParseDecimal { field, input: s.to_owned() });
    }
    let negative = cs[lo] == '-';
    let start = if negative || cs[lo] == '+' {
        lo + 1
    } else {
        lo
    };
    proof {
        assert(body == cs@.subrange(lo as int, hi as int));
        assert(body[0] == cs@[lo as int]);
        assert(cs@.subrange(start as int, hi as int) =~= split_sign(body).1);
        assert(negative == split_sign(body).0);
    }
    if negative && !allow_negative {
        return Err(DomainError::UnexpectedSign { field, input: s.to_owned() });
    }
    let u = unsigned_decimal(&cs, start, hi);
    proof {
        let rest = cs@.subrange(start as int, hi as int);
        assert(body.len() != 0);
        assert(!(negative && !allow_negative));
        assert(fixed_outcome(s@, allow_negative) == match unsigned_outcome(rest) {
            Ok(raw) => if negative {
                Ok(-raw)
            } else {
                Ok(raw)
            },
            Err(f) => Err(f),
        });
    }
    match u {
        Ok(raw) => if negative {
            Ok(-raw)
        } else {
            Ok(raw)
        },
        Err(FixedFault::Malformed) => Err(DomainError::ParseDecimal { field, input: s.to_owned() }),
        Err(FixedFault::Sign) => Err(DomainError::UnexpectedSign { field, input: s.to_owned() }),
        Err(FixedFault::Precision) => Err(
            DomainError::TooManyDecimals { field, max: SCALE_DIGITS, input: s.to_owned() },
        ),
        Err(FixedFault::Overflow) => Err(DomainError::Overflow("decimal parse")),
    }
}

/// A digit string of length `n` denotes less than `10^n`.
pub proof fn lemma_digits_value_bound(s: Seq<char>)
    requires
        all_digits(s),
    ensures
        0 <= digits_value(s) < pow10(s.len()),
    decreases s.len(),
{
    if s.len() > 0 {
        assert(all_digits(s.drop_last()));
        lemma_digits_value_bound(s.drop_last());
        assert(is_digit(s[s.len() - 1]));
        assert(pow10(s.len()) == 10 * pow10(s.drop_last().len()));
    }
}

pub proof fn lemma_pow10_mono(a: nat, b: nat)
    requires
        a <= b,
    ensures
        1 <= pow10(a) <= pow10(b),
    decreases b,
{
    if a < b {
        lemma_pow10_mono(a, (b - 1) as nat);
    } else if a > 0 {
        lemma_pow10_mono((a - 1) as nat, (a - 1) as nat);
    }
}

/// The decimal spelling of an integer: an optional `-`, then its digits.
pub open spec fn int_text(v: int) -> Seq<char> {
    if v < 0 {
        seq!['-'] + nat_digits((-v) as nat)
    } else {
        nat_digits(v as nat)
    }
}

/// Four digits, zero-padded.
pub open spec fn four_digits(n: int) -> Seq<char> {
    seq![
        digit_char(n / 1000),
        digit_char((n / 100) % 10),
        digit_char((n / 10) % 10),
        digit_char(n % 10),
    ]
}

/// Fixed-point rendering with exactly four decimal places.
pub open spec fn render_fixed(raw: int) -> Seq<char> {
    let a = if raw < 0 {
        -raw
    } else {
        raw
    };
    let sign = if raw < 0 {
        seq!['-']
    } else {
        Seq::<char>::empty()
    };
    sign + nat_digits((a / 10000) as nat) + seq!['.'] + four_digits(a % 10000)
}

/// |v| as a u64, without overflow at `i64::MIN`.
fn magnitude(v: i64) -> (m: u64)
    ensures
        m == if v < 0 {
            -v
        } else {
            v as int
        },
{
    if v < 0 {
        ((-(v + 1)) as u64) + 1
    } else {
        v as u64
    }
}

/// Append the decimal spelling of an integer.
fn push_int(out: &mut Vec<char>, v: i64)
    ensures
        final(out)@ == old(out)@ + int_text(v as int),
{
    if v < 0 {
        out.push('-');
    }
    let m = magnitude(v);
    push_decimal(out, m);
    proof {
        if v < 0 {
            assert(final(out)@ =~= old(out)@ + (seq!['-'] + nat_digits(m as nat)));
        }
    }
}

/// Render raw scaled units with exactly four decimal places.
fn format_fixed(raw: i64) -> (s: String)
    ensures
        s@ == render_fixed(raw as int),
{
    let mut out: Vec<char> = Vec::new();
    if raw < 0 {
        out.push('-');
    }
    let a = magnitude(raw);
    let ghost start = out@;
    push_decimal(&mut out, a / 10000);
    out.push('.');
    let f = a % 10000;
    out.push(digit_to_char(f / 1000));
    out.push(digit_to_char((f / 100) % 10));
    out.push(digit_to_char((f / 10) % 10));
    out.push(digit_to_char(f % 10));
    proof {
        let sign = if raw < 0 {
            seq!['-']
        } else {
            Seq::<char>::empty()
        };
        assert(start =~= sign);
        assert(out@ =~= sign + nat_digits((a / 10000) as nat) + seq!['.'] + four_digits(
            (a % 10000) as int,
        ));
    }
    string_of(&out)
}


// ---- what is written reads back ------------------------------------------------------

proof fn lemma_digit_char(d: int)
    requires
        0 <= d <= 9,
    ensures
        is_digit(digit_char(d)),
        digit_val(digit_char(d)) == d,
{
}

/// The canonical spelling of `n` is all digits and denotes `n`.
proof fn lemma_nat_digits(n: nat)
    ensures
        all_digits(nat_digits(n)),
        digits_value(nat_digits(n)) == n,
        nat_digits(n).len() >= 1,
    decreases n,
{
    if n < 10 {
        lemma_digit_char(n as int);
        let t = seq![digit_char(n as int)];
        assert(t.drop_last() =~= Seq::<char>::empty());
        assert(t.last() == digit_char(n as int));
        assert(digits_value(t) == digits_value(t.drop_last()) * 10 + digit_val(t.last()));
    } else {
        lemma_nat_digits(n / 10);
        lemma_digit_char((n % 10) as int);
        let t = nat_digits(n / 10).push(digit_char((n % 10) as int));
        assert(t.drop_last() =~= nat_digits(n / 10));
        assert(t.last() == digit_char((n % 10) as int));
        assert(digits_value(t) == digits_value(t.drop_last()) * 10 + digit_val(t.last()));
        assert((n / 10) * 10 + n % 10 == n);
        assert(all_digits(t)) by {
            assert forall|i: int| 0 <= i < t.len() implies is_digit(#[trigger] t[i]) by {
                if i < t.len() - 1 {
                    assert(t[i] == nat_digits(n / 10)[i]);
                }
            }
        }
    }
}

/// Four zero-padded digits denote the number below ten thousand they spell.
proof fn lemma_four_digits(r: int)
    requires
        0 <= r < 10000,
    ensures
        all_digits(four_digits(r)),
        digits_value(four_digits(r)) == r,
        four_digits(r).len() == 4,
{
    let d0 = r / 1000;
    let d1 = (r / 100) % 10;
    let d2 = (r / 10) % 10;
    let d3 = r % 10;
    lemma_digit_char(d0);
    lemma_digit_char(d1);
    lemma_digit_char(d2);
    lemma_digit_char(d3);
    let f = four_digits(r);
    let f1 = seq![digit_char(d0)];
    let f2 = seq![digit_char(d0), digit_char(d1)];
    let f3 = seq![digit_char(d0), digit_char(d1), digit_char(d2)];
    assert(f1.drop_last() =~= Seq::<char>::empty());
    assert(f2.drop_last() =~= f1);
    assert(f3.drop_last() =~= f2);
    assert(f.drop_last() =~= f3);
    assert(f1.last() == digit_char(d0));
    assert(digits_value(Seq::<char>::empty()) == 0);
    assert(digits_value(f1) == digits_value(f1.drop_last()) * 10 + digit_val(f1.last()));
    assert(digits_value(f1) == d0);
    assert(f2.last() == digit_char(d1));
    assert(f3.last() == digit_char(d2));
    assert(f.last() == digit_char(d3));
    assert(digits_value(f2) == d0 * 10 + d1);
    assert(digits_value(f3) == (d0 * 10 + d1) * 10 + d2);
    assert(digits_value(f) == ((d0 * 10 + d1) * 10 + d2) * 10 + d3);
    assert(((d0 * 10 + d1) * 10 + d2) * 10 + d3 == r) by (nonlinear_arith)
        requires
            0 <= r < 10000,
            d0 == r / 1000,
            d1 == (r / 100) % 10,
            d2 == (r / 10) % 10,
            d3 == r % 10,
    ;
}

/// A digit string holding no `.` has no dotted split but the one at `p`.
proof fn lemma_single_dot(rest: Seq<char>, p: int)
    requires
        0 <= p < rest.len(),
        rest[p] == '.',
        forall|i: int| 0 <= i < rest.len() && i != p ==> is_digit(#[trigger] rest[i]),
    ensures
        forall|k: int| dotted_at(rest, k) ==> k == p,
{
    assert forall|k: int| dotted_at(rest, k) implies k == p by {
        if k != p {
            assert(is_digit(rest[k]));
        }
    }
}

/// What is written reads back: the four-place text of an amount parses to
/// the same amount. (The one exception is the most negative raw value, whose
/// magnitude does not fit the parser's unsigned range.)
pub proof fn law_amount_text_reads_back(v: int)
    requires
        i64::MIN < v <= i64::MAX,
    ensures
        fixed_outcome(render_fixed(v), true) == Ok::<int, FixedFault>(v),
{
    let a = if v < 0 {
        -v
    } else {
        v
    };
    let q = a / 10000;
    let r = a % 10000;
    lemma_nat_digits(q as nat);
    lemma_four_digits(r);
    let ip = nat_digits(q as nat);
    let fp = four_digits(r);
    let rest = ip + seq!['.'] + fp;
    let s = render_fixed(v);
    let p = ip.len() as int;
    assert(rest[p] == '.');
    assert(rest.take(p) =~= ip);
    assert(rest.skip(p + 1) =~= fp);
    assert forall|i: int| 0 <= i < rest.len() && i != p implies is_digit(#[trigger] rest[i]) by {
        if i < p {
            assert(rest[i] == ip[i]);
        } else {
            assert(rest[i] == fp[i - p - 1]);
        }
    }
    lemma_single_dot(rest, p);
    assert(dotted_at(rest, p));
    assert(!all_digits(rest)) by {
        assert(!is_digit(rest[p]));
    }
    assert(decimal_parts(rest) == Some((ip, fp)));
    assert(pow10(0) == 1);
    assert(unsigned_outcome(rest) == Ok::<int, FixedFault>(a));
    // No whitespace at either end: the first character is a sign or a digit,
    // the last a digit.
    assert(s.len() > 0 && !is_ws(s[0]) && !is_ws(s.last())) by {
        if v < 0 {
            assert(s == seq!['-'] + rest);
            assert(s[0] == '-');
        } else {
            assert(s =~= rest);
            assert(is_digit(rest[0]));
        }
        assert(s.last() == fp[3]);
        assert(is_digit(fp[3]));
    }
    assert(trim_start(s) == s);
    assert(trim_end(s) == s);
    if v < 0 {
        assert(s =~= seq!['-'] + rest);
        assert(split_sign(s) == (true, rest)) by {
            assert(s.skip(1) =~= rest);
        }
    } else {
        assert(s =~= rest);
        assert(is_digit(s[0]));
    }
}

} // verus!
