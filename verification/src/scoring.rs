//! Daily results, the daily leaderboard, and the overall ladder.
//!
//! - Daily rank is on return %, not absolute P&L, so participants with
//!   different capital compare fairly.
//! - The ladder compounds daily returns geometrically, because returns chain
//!   multiplicatively: −50% then +50% sums to zero but leaves you down 25%.
//! - Every sort ends in the participant id, giving a total order, so no two
//!   rows compare equal and no ranking can permute between runs.
//! - An inactive day ranks normally at 0%, but ladder placement requires at
//!   least one active day.
//!
//! Pure: no I/O, no clock, no randomness. Returns are `rust_decimal` values,
//! carried here as their mantissa and scale.
use vstd::prelude::*;

use rust_decimal::Decimal;

use crate::ids::ParticipantId;
use crate::money::{money_range, pow10, Money};
use crate::keyed::{lemma_sorted_insert, lemma_sorted_unique, strictly_sorted};
use crate::text::{
    lemma_lex_asymmetric, lemma_lex_irreflexive, lemma_lex_total, lemma_lex_transitive, lex_lt,
    nat_digits, zeros,
};
use crate::time::TradingDay;

verus! {

broadcast use {crate::money::group_money, vstd::seq_lib::group_to_multiset_ensures};

/// Decimal places a return is rounded to before it is compared or reported.
pub const RETURN_SCALE: u32 = 10;

// ---- decimals -----------------------------------------------------------------

/// A decimal as `rust_decimal` holds it: `mantissa × 10^−scale`, the mantissa
/// within 96 bits and the scale at most 28.
#[derive(Debug, Clone, Copy, PartialEq, Eq, Structural)]
pub struct Dec {
    mantissa: i128,
    scale: u32,
}

/// The largest mantissa a decimal can carry: 96 bits.
pub open spec fn max_mantissa() -> int {
    0xFFFF_FFFF_FFFF_FFFF_FFFF_FFFF
}

impl View for Dec {
    type V = (int, int);

    closed spec fn view(&self) -> (int, int) {
        (self.mantissa as int, self.scale as int)
    }
}

/// `a < b` as numbers, whatever their scales.
pub open spec fn dec_lt(a: (int, int), b: (int, int)) -> bool {
    a.0 * pow10(b.1 as nat) < b.0 * pow10(a.1 as nat)
}

/// `a == b` as numbers, whatever their scales.
pub open spec fn dec_eq(a: (int, int), b: (int, int)) -> bool {
    a.0 * pow10(b.1 as nat) == b.0 * pow10(a.1 as nat)
}

/// Round to `dp` places, a midpoint going to the even neighbour; a value with
/// `dp` places or fewer is left exactly as it is.
pub open spec fn round_half_even(v: (int, int), dp: int) -> (int, int) {
    let (m, s) = v;
    if s <= dp {
        v
    } else {
        let p = pow10((s - dp) as nat);
        let a = if m < 0 {
            -m
        } else {
            m
        };
        let q = a / p;
        let r = a % p;
        let half = 5 * pow10((s - dp - 1) as nat);
        let q2 = if r > half || (r == half && q % 2 == 1) {
            q + 1
        } else {
            q
        };
        (
            if m < 0 {
                -q2
            } else {
                q2
            },
            dp,
        )
    }
}

/// What `rust_decimal` gives for `a / b`.
pub uninterp spec fn decimal_quotient(a: (int, int), b: (int, int)) -> (int, int);

/// What `rust_decimal` gives for `a + b`, `None` when it does not fit.
pub uninterp spec fn decimal_sum(a: (int, int), b: (int, int)) -> Option<(int, int)>;

/// What `rust_decimal` gives for `a − b`, `None` when it does not fit.
pub uninterp spec fn decimal_difference(a: (int, int), b: (int, int)) -> Option<(int, int)>;

/// What `rust_decimal` gives for `a × b`, `None` when it does not fit.
pub uninterp spec fn decimal_product(a: (int, int), b: (int, int)) -> Option<(int, int)>;

pub open spec fn dec_opt_view(d: Option<Dec>) -> Option<(int, int)> {
    match d {
        Some(x) => Some(x@),
        None => None,
    }
}

impl Dec {
    #[verifier::type_invariant]
    spec fn inv(self) -> bool {
        -max_mantissa() <= self.mantissa <= max_mantissa() && self.scale <= 28
    }

    pub fn zero() -> (d: Dec)
        ensures
            d@ == (0int, 0int),
    {
        Dec { mantissa: 0, scale: 0 }
    }

    pub fn one() -> (d: Dec)
        ensures
            d@ == (1int, 0int),
    {
        Dec { mantissa: 1, scale: 0 }
    }

    /// The integer `mantissa` in `mantissa × 10^−scale`.
    pub fn mantissa(&self) -> (m: i128)
        ensures
            m == self@.0,
            -max_mantissa() <= m <= max_mantissa(),
    {
        proof {
            use_type_invariant(self);
        }
        self.mantissa
    }

    /// The number of decimal places.
    pub fn scale(&self) -> (s: u32)
        ensures
            s == self@.1,
            s <= 28,
    {
        proof {
            use_type_invariant(self);
        }
        self.scale
    }
}

/// `Decimal::from(i64)`: the integer itself, at scale zero.
#[verifier::external_body]
fn decimal_of(v: i64) -> (d: Dec)
    ensures
        d@ == (v as int, 0int),
{
    let x = Decimal::from(v);
    Dec { mantissa: x.mantissa(), scale: x.scale() }
}

/// `Decimal / Decimal`, here only ever of two integers with a non-zero
/// divisor, where the quotient cannot overflow. What it returns is named, not
/// stated.
#[verifier::external_body]
fn decimal_div(a: Dec, b: Dec) -> (q: Dec)
    requires
        a@.1 == 0,
        b@.1 == 0,
        i64::MIN <= a@.0 <= i64::MAX,
        1 <= b@.0 <= i64::MAX,
    ensures
        q@ == decimal_quotient(a@, b@),
{
    let x = Decimal::from_i128_with_scale(a.mantissa, a.scale) / Decimal::from_i128_with_scale(
        b.mantissa,
        b.scale,
    );
    Dec { mantissa: x.mantissa(), scale: x.scale() }
}

/// `Decimal::round_dp`: banker's rounding to `dp` places; a value with no
/// more places than that is returned unchanged.
#[verifier::external_body]
fn decimal_round(a: Dec, dp: u32) -> (r: Dec)
    ensures
        r@ == round_half_even(a@, dp as int),
{
    let x = Decimal::from_i128_with_scale(a.mantissa, a.scale).round_dp(dp);
    Dec { mantissa: x.mantissa(), scale: x.scale() }
}

/// `Decimal < Decimal`: numeric order, whatever the scales.
#[verifier::external_body]
fn decimal_less(a: Dec, b: Dec) -> (r: bool)
    ensures
        r == dec_lt(a@, b@),
{
    Decimal::from_i128_with_scale(a.mantissa, a.scale) < Decimal::from_i128_with_scale(
        b.mantissa,
        b.scale,
    )
}

/// `Decimal::checked_add`: the sum, or `None` when it does not fit.
#[verifier::external_body]
fn decimal_add(a: Dec, b: Dec) -> (r: Option<Dec>)
    ensures
        dec_opt_view(r) == decimal_sum(a@, b@),
{
    match Decimal::from_i128_with_scale(a.mantissa, a.scale).checked_add(
        Decimal::from_i128_with_scale(b.mantissa, b.scale),
    ) {
        Some(x) => Some(Dec { mantissa: x.mantissa(), scale: x.scale() }),
        None => None,
    }
}

/// `Decimal::checked_sub`: the difference, or `None` when it does not fit.
#[verifier::external_body]
fn decimal_sub(a: Dec, b: Dec) -> (r: Option<Dec>)
    ensures
        dec_opt_view(r) == decimal_difference(a@, b@),
{
    match Decimal::from_i128_with_scale(a.mantissa, a.scale).checked_sub(
        Decimal::from_i128_with_scale(b.mantissa, b.scale),
    ) {
        Some(x) => Some(Dec { mantissa: x.mantissa(), scale: x.scale() }),
        None => None,
    }
}

/// `Decimal::checked_mul`: the product, or `None` when it does not fit.
#[verifier::external_body]
fn decimal_mul(a: Dec, b: Dec) -> (r: Option<Dec>)
    ensures
        dec_opt_view(r) == decimal_product(a@, b@),
{
    match Decimal::from_i128_with_scale(a.mantissa, a.scale).checked_mul(
        Decimal::from_i128_with_scale(b.mantissa, b.scale),
    ) {
        Some(x) => Some(Dec { mantissa: x.mantissa(), scale: x.scale() }),
        None => None,
    }
}

/// The digits `Decimal` writes for the magnitude of `mantissa`, left-padded
/// with zeros to at least `scale` of them: none at all for zero.
pub open spec fn padded_digits(mantissa: int, scale: int) -> Seq<char> {
    let a = if mantissa < 0 {
        -mantissa
    } else {
        mantissa
    };
    let ds = if a == 0 {
        Seq::<char>::empty()
    } else {
        nat_digits(a as nat)
    };
    zeros(scale - ds.len()) + ds
}

/// The text `Decimal`'s `Display` writes for the decimal with this mantissa
/// and scale: a `-` for a negative one, the integer digits (`0` when there
/// are none), then, for a positive scale, `.` and exactly `scale` fraction
/// digits.
pub open spec fn decimal_text(mantissa: int, scale: int) -> Seq<char> {
    let p = padded_digits(mantissa, scale);
    let whole = p.take(p.len() - scale);
    let int_part = if whole.len() == 0 {
        seq!['0']
    } else {
        whole
    };
    let sign = if mantissa < 0 {
        seq!['-']
    } else {
        Seq::<char>::empty()
    };
    if scale <= 0 {
        sign + int_part
    } else {
        sign + int_part + seq!['.'] + p.skip(p.len() - scale)
    }
}

/// `Decimal`'s `to_string` (its `Display`, with no precision given).
#[verifier::external_body]
fn decimal_render(a: &Dec) -> (s: String)
    ensures
        s@ == decimal_text(a@.0, a@.1),
{
    Decimal::from_i128_with_scale(a.mantissa, a.scale).to_string()
}

impl Dec {
    /// The decimal as text, every place of its scale written out.
    pub fn render(&self) -> (s: String)
        ensures
            s@ == decimal_text(self@.0, self@.1),
    {
        decimal_render(self)
    }

    /// A return as a percentage for display: `self × 100`, rounded half to
    /// even at four places (rounded, not truncated: 0.14169 shows as
    /// 0.1417). `None` when the product does not fit a decimal.
    pub fn percent(&self) -> (p: Option<Dec>)
        ensures
            match decimal_product(self@, (100int, 0int)) {
                Some(x) => p is Some && p->0@ == round_half_even(x, 4),
                None => p is None,
            },
    {
        let hundred = decimal_of(100);
        match decimal_mul(*self, hundred) {
            Some(x) => Some(decimal_round(x, 4)),
            None => None,
        }
    }
}

pub proof fn lemma_pow10_positive(n: nat)
    ensures
        pow10(n) >= 1,
    decreases n,
{
    if n > 0 {
        lemma_pow10_positive((n - 1) as nat);
    }
}

proof fn lemma_cross_sign(a0: int, b0: int, c0: int, x: int, y: int, z: int)
    requires
        x >= 1,
        y >= 1,
        z >= 1,
    ensures
        a0 * y < b0 * x && b0 * z < c0 * y ==> a0 * z < c0 * x,
        a0 * y < b0 * x && b0 * z == c0 * y ==> a0 * z < c0 * x,
        a0 * y == b0 * x && b0 * z < c0 * y ==> a0 * z < c0 * x,
        a0 * y == b0 * x && b0 * z == c0 * y ==> a0 * z == c0 * x,
{
    assert((a0 * z - c0 * x) * y == a0 * z * y - c0 * x * y) by (nonlinear_arith);
    assert((a0 * y - b0 * x) * z == a0 * y * z - b0 * x * z) by (nonlinear_arith);
    assert((b0 * z - c0 * y) * x == b0 * z * x - c0 * y * x) by (nonlinear_arith);
    assert(a0 * z * y == a0 * y * z) by (nonlinear_arith);
    assert(b0 * x * z == b0 * z * x) by (nonlinear_arith);
    assert(c0 * x * y == c0 * y * x) by (nonlinear_arith);
    if a0 * y <= b0 * x && b0 * z <= c0 * y {
        assert((a0 * y - b0 * x) * z <= 0) by (nonlinear_arith)
            requires
                a0 * y - b0 * x <= 0,
                z >= 1,
        ;
        assert((b0 * z - c0 * y) * x <= 0) by (nonlinear_arith)
            requires
                b0 * z - c0 * y <= 0,
                x >= 1,
        ;
        if a0 * y < b0 * x || b0 * z < c0 * y {
            assert((a0 * y - b0 * x) * z < 0 || (b0 * z - c0 * y) * x < 0) by (nonlinear_arith)
                requires
                    a0 * y - b0 * x < 0 || b0 * z - c0 * y < 0,
                    z >= 1,
                    x >= 1,
            ;
            assert(a0 * z - c0 * x < 0) by (nonlinear_arith)
                requires
                    (a0 * z - c0 * x) * y < 0,
                    y >= 1,
            ;
        } else {
            assert(a0 * z - c0 * x == 0) by (nonlinear_arith)
                requires
                    (a0 * z - c0 * x) * y == 0,
                    y >= 1,
            ;
        }
    }
}

/// Numeric order on decimals is a strict order, and numeric equality an
/// equivalence compatible with it.
pub proof fn lemma_dec_order(a: (int, int), b: (int, int), c: (int, int))
    requires
        a.1 >= 0,
        b.1 >= 0,
        c.1 >= 0,
    ensures
        dec_lt(a, b) && dec_lt(b, c) ==> dec_lt(a, c),
        dec_lt(a, b) && dec_eq(b, c) ==> dec_lt(a, c),
        dec_eq(a, b) && dec_lt(b, c) ==> dec_lt(a, c),
        dec_eq(a, b) && dec_eq(b, c) ==> dec_eq(a, c),
{
    lemma_pow10_positive(a.1 as nat);
    lemma_pow10_positive(b.1 as nat);
    lemma_pow10_positive(c.1 as nat);
    lemma_cross_sign(
        a.0,
        b.0,
        c.0,
        pow10(a.1 as nat),
        pow10(b.1 as nat),
        pow10(c.1 as nat),
    );
}

// ---- daily results ------------------------------------------------------------

#[derive(Debug, Clone, PartialEq, Eq)]
pub enum ScoringError {
    /// A day with no participants has nothing to rank.
    NoParticipants { day: TradingDay },
    /// A participant appears twice in one day.
    DuplicateParticipant(ParticipantId),
    /// A participant's compounded return does not fit in a decimal.
    Overflow(ParticipantId),
}

/// What the engine hands scoring at the end of a day. `turnover` and `active`
/// are facts about the day's fills, which the caller knows and this module
/// does not.
#[derive(Debug, PartialEq, Eq)]
pub struct DayInput {
    pub participant: ParticipantId,
    pub closing_value: Money,
    /// Yesterday's close, or starting cash on a participant's first day.
    pub prior_closing_value: Money,
    /// Gross notional traded today. The daily tiebreak.
    pub turnover: Money,
    /// At least one fill today, or a non-zero position held at any point.
    pub active: bool,
}

impl Clone for DayInput {
    fn clone(&self) -> (r: Self)
        ensures
            r == *self,
    {
        DayInput {
            participant: self.participant.clone(),
            closing_value: self.closing_value,
            prior_closing_value: self.prior_closing_value,
            turnover: self.turnover,
            active: self.active,
        }
    }
}

#[derive(Debug, PartialEq, Eq)]
pub struct DailyResult {
    pub participant: ParticipantId,
    pub closing_value: Money,
    pub daily_pnl: Money,
    pub daily_return: Dec,
    pub turnover: Money,
    pub active: bool,
    /// Prior value was zero or less, so a return is undefined and reported as
    /// zero. Long-only and unlevered, so this means wiped out.
    pub bust: bool,
}

impl Clone for DailyResult {
    fn clone(&self) -> (r: Self)
        ensures
            r == *self,
    {
        DailyResult {
            participant: self.participant.clone(),
            closing_value: self.closing_value,
            daily_pnl: self.daily_pnl,
            daily_return: self.daily_return,
            turnover: self.turnover,
            active: self.active,
            bust: self.bust,
        }
    }
}

/// `(close − prior) / prior`, rounded to [`RETURN_SCALE`]; zero rather than an
/// infinity when the prior value is zero or less.
pub open spec fn return_of(pnl: int, base: int) -> (int, int) {
    if base <= 0 {
        (0, 0)
    } else {
        round_half_even(decimal_quotient((pnl, 0), (base, 0)), RETURN_SCALE as int)
    }
}

/// The day's P&L: close less prior, or zero if that does not fit.
pub open spec fn pnl_of(input: DayInput) -> int {
    let d = input.closing_value@ - input.prior_closing_value@;
    if money_range(d) {
        d
    } else {
        0
    }
}

/// The result a day's input closes to.
pub open spec fn result_matches(r: DailyResult, input: DayInput) -> bool {
    &&& r.participant == input.participant
    &&& r.closing_value == input.closing_value
    &&& r.daily_pnl@ == pnl_of(input)
    &&& r.daily_return@ == return_of(pnl_of(input), input.prior_closing_value@)
    &&& r.turnover == input.turnover
    &&& r.active == input.active
    &&& r.bust == (input.prior_closing_value@ <= 0)
}

/// Some earlier input has the same participant as input `i`.
pub open spec fn repeats_earlier(inputs: Seq<DayInput>, i: int) -> bool {
    exists|j: int| 0 <= j < i && (#[trigger] inputs[j]).participant@ == inputs[i].participant@
}

fn ret(pnl: Money, base: Money) -> (r: Dec)
    ensures
        r@ == return_of(pnl@, base@),
{
    if base.raw() <= 0 {
        return Dec::zero();
    }
    let q = decimal_div(decimal_of(pnl.raw()), decimal_of(base.raw()));
    decimal_round(q, RETURN_SCALE)
}

/// Close a day: turn raw values into results, in input order. A participant
/// appearing twice is refused, naming the first repeat.
pub fn daily_results(inputs: Vec<DayInput>) -> (r: Result<Vec<DailyResult>, ScoringError>)
    ensures
        match r {
            Ok(v) => v@.len() == inputs@.len() && (forall|i: int|
                0 <= i < inputs@.len() ==> !repeats_earlier(inputs@, i)) && (forall|i: int|
                0 <= i < v@.len() ==> result_matches(#[trigger] v@[i], inputs@[i]))
                && distinct_participants(v@),
            Err(e) => exists|i: int|
                0 <= i < inputs@.len() && repeats_earlier(inputs@, i) && (forall|k: int|
                    0 <= k < i ==> !repeats_earlier(inputs@, k)) && e
                    == ScoringError::DuplicateParticipant(inputs@[i].participant),
        },
{
    let mut out: Vec<DailyResult> = Vec::new();
    let mut i: usize = 0;
    while i < inputs.len()
        invariant
            i <= inputs@.len(),
            out@.len() == i,
            forall|k: int| 0 <= k < i ==> !repeats_earlier(inputs@, k),
            forall|k: int| 0 <= k < i ==> result_matches(#[trigger] out@[k], inputs@[k]),
        decreases inputs@.len() - i,
    {
        let input = &inputs[i];
        let mut j: usize = 0;
        while j < i
            invariant
                i < inputs@.len(),
                j <= i,
                out@.len() == i,
                forall|k: int| 0 <= k < i ==> result_matches(#[trigger] out@[k], inputs@[k]),
                *input == inputs@[i as int],
                forall|k: int| 0 <= k < i ==> !repeats_earlier(inputs@, k),
                forall|k: int| 0 <= k < j ==> (#[trigger] inputs@[k]).participant@ != input.participant@,
            decreases i - j,
        {
            if out[j].participant.same(&input.participant) {
                assert(result_matches(out@[j as int], inputs@[j as int]));
                assert(inputs@[j as int].participant@ == inputs@[i as int].participant@);
                assert(repeats_earlier(inputs@, i as int));
                let e = ScoringError::DuplicateParticipant(input.participant.clone());
                assert(e == ScoringError::DuplicateParticipant(inputs@[i as int].participant));
                return Err(e);
            }
            assert(result_matches(out@[j as int], inputs@[j as int]));
            j = j + 1;
        }
        let daily_pnl = match input.closing_value.checked_sub(input.prior_closing_value) {
            Ok(p) => p,
            Err(_) => Money::zero(),
        };
        let result = DailyResult {
            participant: input.participant.clone(),
            closing_value: input.closing_value,
            daily_pnl,
            daily_return: ret(daily_pnl, input.prior_closing_value),
            turnover: input.turnover,
            active: input.active,
            bust: input.prior_closing_value.raw() <= 0,
        };
        out.push(result);
        i = i + 1;
    }
    assert(distinct_participants(out@)) by {
        assert forall|a: int, b: int| 0 <= a < b < out@.len() implies (
        #[trigger] out@[a]).participant@ != (#[trigger] out@[b]).participant@ by {
            assert(result_matches(out@[a], inputs@[a]));
            assert(result_matches(out@[b], inputs@[b]));
            assert(!repeats_earlier(inputs@, b));
        }
    }
    Ok(out)
}


// ---- the daily leaderboard ----------------------------------------------------

#[derive(Debug, PartialEq, Eq)]
pub struct LeaderboardRow {
    pub rank: u32,
    pub result: DailyResult,
}

#[derive(Debug, PartialEq, Eq)]
pub struct Leaderboard {
    pub day: TradingDay,
    pub rows: Vec<LeaderboardRow>,
}

impl Clone for LeaderboardRow {
    fn clone(&self) -> (r: Self)
        ensures
            r == *self,
    {
        LeaderboardRow { rank: self.rank, result: self.result.clone() }
    }
}

impl Clone for Leaderboard {
    fn clone(&self) -> (r: Self)
        ensures
            r.day == self.day,
            r.rows@ == self.rows@,
    {
        let mut rows: Vec<LeaderboardRow> = Vec::new();
        let mut i: usize = 0;
        while i < self.rows.len()
            invariant
                i <= self.rows@.len(),
                rows@ == self.rows@.take(i as int),
            decreases self.rows@.len() - i,
        {
            rows.push(self.rows[i].clone());
            i = i + 1;
            assert(rows@ =~= self.rows@.take(i as int));
        }
        assert(self.rows@.take(i as int) =~= self.rows@);
        Leaderboard { day: self.day, rows }
    }
}

/// `a` ranks above `b`: higher return, then lower turnover, then the
/// participant id.
pub open spec fn ranked_before(a: DailyResult, b: DailyResult) -> bool {
    ||| dec_lt(b.daily_return@, a.daily_return@)
    ||| dec_eq(a.daily_return@, b.daily_return@) && a.turnover@ < b.turnover@
    ||| dec_eq(a.daily_return@, b.daily_return@) && a.turnover@ == b.turnover@ && lex_lt(
        a.participant@,
        b.participant@,
    )
}

/// No result ranks above one placed before it.
pub open spec fn in_rank_order(s: Seq<DailyResult>) -> bool {
    forall|i: int, j: int| 0 <= i < j < s.len() ==> !ranked_before(#[trigger] s[j], #[trigger] s[i])
}

/// No participant appears twice.
pub open spec fn distinct_participants(s: Seq<DailyResult>) -> bool {
    forall|i: int, j: int|
        0 <= i < j < s.len() ==> (#[trigger] s[i]).participant@ != (#[trigger] s[j]).participant@
}

/// Two different results in `s` belong to different participants.
pub open spec fn keyed_by_participant(s: Seq<DailyResult>) -> bool {
    forall|x: DailyResult, y: DailyResult|
        #![trigger s.contains(x), s.contains(y)]
        s.contains(x) && s.contains(y) && x != y ==> x.participant@ != y.participant@
}

pub open spec fn results_of(rows: Seq<LeaderboardRow>) -> Seq<DailyResult> {
    rows.map_values(|r: LeaderboardRow| r.result)
}

proof fn lemma_dec_scales(a: Dec)
    ensures
        a@.1 >= 0,
{
}

/// Ranking is a strict order.
pub proof fn lemma_ranked_order(a: DailyResult, b: DailyResult, c: DailyResult)
    ensures
        ranked_before(a, b) && ranked_before(b, c) ==> ranked_before(a, c),
        ranked_before(a, b) ==> !ranked_before(b, a),
        !ranked_before(a, a),
{
    lemma_dec_scales(a.daily_return);
    lemma_dec_scales(b.daily_return);
    lemma_dec_scales(c.daily_return);
    let (ra, rb, rc) = (a.daily_return@, b.daily_return@, c.daily_return@);
    lemma_dec_order(rc, rb, ra);
    lemma_dec_order(ra, rb, rc);
    lemma_dec_order(rb, ra, rb);
    lemma_dec_order(ra, rb, ra);
    lemma_dec_order(rb, rc, rb);
    lemma_dec_order(rc, rb, rc);
    lemma_dec_order(ra, rc, ra);
    lemma_dec_order(rc, ra, rc);
    lemma_dec_order(rb, rc, ra);
    lemma_dec_order(rc, ra, rb);
    lemma_dec_order(ra, ra, ra);
    if lex_lt(a.participant@, b.participant@) && lex_lt(b.participant@, c.participant@) {
        lemma_lex_transitive(a.participant@, b.participant@, c.participant@);
    }
    lemma_lex_asymmetric(a.participant@, b.participant@);
    lemma_lex_irreflexive(a.participant@);
}

/// Two results of different participants are always ordered one way or the
/// other: the id settles every tie.
pub proof fn lemma_ranked_total(a: DailyResult, b: DailyResult)
    requires
        a.participant@ != b.participant@,
    ensures
        ranked_before(a, b) || ranked_before(b, a),
{
    lemma_lex_total(a.participant@, b.participant@);
}

fn ranks_before(a: &DailyResult, b: &DailyResult) -> (r: bool)
    ensures
        r == ranked_before(*a, *b),
{
    if decimal_less(b.daily_return, a.daily_return) {
        return true;
    }
    if decimal_less(a.daily_return, b.daily_return) {
        return false;
    }
    let ta = a.turnover.raw();
    let tb = b.turnover.raw();
    if ta < tb {
        return true;
    }
    if ta > tb {
        return false;
    }
    a.participant.precedes(&b.participant)
}

/// Sort into rank order, keeping every result.
fn rank_order(results: &Vec<DailyResult>) -> (out: Vec<DailyResult>)
    ensures
        in_rank_order(out@),
        out@.to_multiset() == results@.to_multiset(),
{
    let mut out: Vec<DailyResult> = Vec::new();
    let mut i: usize = 0;
    while i < results.len()
        invariant
            i <= results@.len(),
            in_rank_order(out@),
            out@.to_multiset() == results@.take(i as int).to_multiset(),
        decreases results@.len() - i,
    {
        let x = results[i].clone();
        let mut p: usize = 0;
        loop
            invariant
                p <= out@.len(),
                forall|k: int| 0 <= k < p ==> !ranked_before(x, #[trigger] out@[k]),
            ensures
                p <= out@.len(),
                forall|k: int| 0 <= k < p ==> !ranked_before(x, #[trigger] out@[k]),
                p < out@.len() ==> ranked_before(x, out@[p as int]),
            decreases out@.len() - p,
        {
            if p >= out.len() {
                break;
            }
            if ranks_before(&x, &out[p]) {
                break;
            }
            p = p + 1;
        }
        let ghost before = out@;
        out.insert(p, x);
        proof {
            let n = out@;
            assert(n == before.insert(p as int, x));
            assert forall|a: int, b: int| 0 <= a < b < n.len() implies !ranked_before(
                #[trigger] n[b],
                #[trigger] n[a],
            ) by {
                if a < p && b < p {
                    assert(n[a] == before[a] && n[b] == before[b]);
                } else if a < p && b == p {
                    assert(n[a] == before[a]);
                } else if a < p {
                    assert(n[a] == before[a] && n[b] == before[b - 1]);
                } else if a == p {
                    assert(n[b] == before[b - 1]);
                    lemma_ranked_order(before[b - 1], x, before[p as int]);
                    if b - 1 > p {
                        assert(!ranked_before(before[b - 1], before[p as int]));
                    }
                } else {
                    assert(n[a] == before[a - 1] && n[b] == before[b - 1]);
                }
            }
            assert(results@.take(i + 1) =~= results@.take(i as int).push(results@[i as int]));
        }
        i = i + 1;
    }
    assert(results@.take(i as int) =~= results@);
    out
}

/// `rows` rank exactly `results`: one row each, in rank order, numbered from
/// one.
pub open spec fn board_of(results: Seq<DailyResult>, rows: Seq<LeaderboardRow>) -> bool {
    &&& rows.len() == results.len()
    &&& forall|i: int| 0 <= i < rows.len() ==> (#[trigger] rows[i]).rank == i + 1
    &&& in_rank_order(results_of(rows))
    &&& results_of(rows).to_multiset() == results.to_multiset()
}

/// A leaderboard does not depend on the order its results arrive in: two
/// boards of the same results (distinct participants) are row for row the
/// same.
pub proof fn law_leaderboard_ignores_input_order(
    a: Seq<DailyResult>,
    b: Seq<DailyResult>,
    rows_a: Seq<LeaderboardRow>,
    rows_b: Seq<LeaderboardRow>,
)
    requires
        a.to_multiset() == b.to_multiset(),
        distinct_participants(a),
        board_of(a, rows_a),
        board_of(b, rows_b),
    ensures
        rows_a == rows_b,
{
    law_ranking_ignores_input_order(a, b, results_of(rows_a), results_of(rows_b));
    assert(a.len() == a.to_multiset().len() && b.len() == b.to_multiset().len());
    assert forall|i: int| 0 <= i < rows_a.len() implies rows_a[i] == rows_b[i] by {
        assert(results_of(rows_a)[i] == rows_a[i].result);
        assert(results_of(rows_b)[i] == rows_b[i].result);
    }
    assert(rows_a =~= rows_b);
}

/// Rank a day: return % descending, then turnover ascending (the same return
/// on less trading is the better result), then participant id ascending.
/// That last key is arbitrary and openly so: its job is the total order, so
/// the output cannot depend on input order.
pub fn leaderboard(day: TradingDay, results: Vec<DailyResult>) -> (r: Result<
    Leaderboard,
    ScoringError,
>)
    requires
        results@.len() <= u32::MAX,
    ensures
        results@.len() == 0 ==> r == Err::<Leaderboard, ScoringError>(
            ScoringError::NoParticipants { day },
        ),
        results@.len() > 0 ==> (r matches Ok(b) && b.day == day && board_of(results@, b.rows@)),
{
    if results.len() == 0 {
        return Err(ScoringError::NoParticipants { day });
    }
    let sorted = rank_order(&results);
    assert(sorted@.len() == results@.len()) by {
        assert(sorted@.to_multiset().len() == results@.to_multiset().len());
    }
    let mut rows: Vec<LeaderboardRow> = Vec::new();
    let mut i: usize = 0;
    while i < sorted.len()
        invariant
            i <= sorted@.len(),
            sorted@.len() <= u32::MAX,
            rows@.len() == i,
            forall|k: int| 0 <= k < i ==> (#[trigger] rows@[k]).rank == k + 1,
            results_of(rows@) == sorted@.take(i as int),
        decreases sorted@.len() - i,
    {
        rows.push(LeaderboardRow { rank: (i + 1) as u32, result: sorted[i].clone() });
        i = i + 1;
        assert(results_of(rows@) =~= sorted@.take(i as int));
    }
    assert(sorted@.take(i as int) =~= sorted@);
    Ok(Leaderboard { day, rows })
}

/// Two rank-ordered sequences holding the same results, no two of them for the
/// same participant, are the same sequence.
pub proof fn lemma_rank_order_unique(s1: Seq<DailyResult>, s2: Seq<DailyResult>)
    requires
        in_rank_order(s1),
        in_rank_order(s2),
        s1.to_multiset() == s2.to_multiset(),
        keyed_by_participant(s1),
    ensures
        s1 == s2,
    decreases s1.len(),
{
    if s1.len() == 0 {
        assert(s2.to_multiset().len() == 0);
        assert(s1 =~= s2);
    } else {
        assert(s2.len() > 0) by {
            assert(s1.to_multiset().len() == s1.len());
            assert(s2.to_multiset().len() == s2.len());
        }
        let x = s1[0];
        let y = s2[0];
        assert(s1.contains(x));
        assert(s2.contains(y));
        assert(s2.to_multiset().count(x) > 0);
        assert(s1.to_multiset().count(y) > 0);
        assert(s2.contains(x));
        assert(s1.contains(y));
        if x != y {
            lemma_ranked_total(x, y);
            let k = choose|k: int| 0 <= k < s2.len() && s2[k] == x;
            let m = choose|m: int| 0 <= m < s1.len() && s1[m] == y;
            assert(k != 0 && m != 0);
            assert(!ranked_before(s2[k], s2[0]));
            assert(!ranked_before(s1[m], s1[0]));
        }
        let t1 = s1.drop_first();
        let t2 = s2.drop_first();
        assert(t1 =~= s1.remove(0));
        assert(t2 =~= s2.remove(0));
        assert(t1.to_multiset() == s1.to_multiset().remove(x));
        assert(t2.to_multiset() == s2.to_multiset().remove(y));
        assert(in_rank_order(t1)) by {
            assert forall|i: int, j: int| 0 <= i < j < t1.len() implies !ranked_before(
                #[trigger] t1[j],
                #[trigger] t1[i],
            ) by {
                assert(t1[i] == s1[i + 1] && t1[j] == s1[j + 1]);
            }
        }
        assert(in_rank_order(t2)) by {
            assert forall|i: int, j: int| 0 <= i < j < t2.len() implies !ranked_before(
                #[trigger] t2[j],
                #[trigger] t2[i],
            ) by {
                assert(t2[i] == s2[i + 1] && t2[j] == s2[j + 1]);
            }
        }
        assert(keyed_by_participant(t1)) by {
            assert forall|a: DailyResult, b: DailyResult|
                t1.contains(a) && t1.contains(b) && a != b implies a.participant@
                != b.participant@ by {
                let ia = choose|i: int| 0 <= i < t1.len() && t1[i] == a;
                let ib = choose|i: int| 0 <= i < t1.len() && t1[i] == b;
                assert(s1[ia + 1] == a && s1[ib + 1] == b);
                assert(s1.contains(a) && s1.contains(b));
            }
        }
        lemma_rank_order_unique(t1, t2);
        assert(s1 =~= s2) by {
            assert forall|i: int| 0 <= i < s1.len() implies s1[i] == s2[i] by {
                if i > 0 {
                    assert(s1[i] == t1[i - 1] && s2[i] == t2[i - 1]);
                }
            }
        }
    }
}

/// Ranking is invariant to input order: two inputs holding the same results,
/// with no participant appearing twice, rank to exactly the same rows.
pub proof fn law_ranking_ignores_input_order(
    a: Seq<DailyResult>,
    b: Seq<DailyResult>,
    ra: Seq<DailyResult>,
    rb: Seq<DailyResult>,
)
    requires
        a.to_multiset() == b.to_multiset(),
        distinct_participants(a),
        in_rank_order(ra),
        ra.to_multiset() == a.to_multiset(),
        in_rank_order(rb),
        rb.to_multiset() == b.to_multiset(),
    ensures
        ra == rb,
{
    assert(keyed_by_participant(ra)) by {
        assert forall|x: DailyResult, y: DailyResult|
            ra.contains(x) && ra.contains(y) && x != y implies x.participant@
            != y.participant@ by {
            assert(ra.to_multiset().count(x) > 0);
            assert(ra.to_multiset().count(y) > 0);
            assert(a.contains(x) && a.contains(y));
            let i = choose|i: int| 0 <= i < a.len() && a[i] == x;
            let j = choose|j: int| 0 <= j < a.len() && a[j] == y;
            assert(i != j);
            if i < j {
                assert(a[i].participant@ != a[j].participant@);
            } else {
                assert(a[j].participant@ != a[i].participant@);
            }
        }
    }
    lemma_rank_order_unique(ra, rb);
}


// ---- the overall ladder -------------------------------------------------------

#[derive(Debug, PartialEq, Eq)]
pub struct LadderRow {
    /// `None` when the participant has never been active — listed, but not
    /// placed.
    pub rank: Option<u32>,
    pub participant: ParticipantId,
    pub cumulative_return: Dec,
    pub daily_wins: u32,
    pub active_days: u32,
    /// Secondary view only; never the sort key.
    pub points: u32,
    pub eligible: bool,
}

impl Clone for LadderRow {
    fn clone(&self) -> (r: Self)
        ensures
            r == *self,
    {
        LadderRow {
            rank: self.rank,
            participant: self.participant.clone(),
            cumulative_return: self.cumulative_return,
            daily_wins: self.daily_wins,
            active_days: self.active_days,
            points: self.points,
            eligible: self.eligible,
        }
    }
}

/// Points for a daily placing, Formula-1 style: a secondary view on the ladder.
pub open spec fn points_for(rank: int) -> int {
    if rank == 1 {
        25
    } else if rank == 2 {
        18
    } else if rank == 3 {
        15
    } else if rank == 4 {
        12
    } else if rank == 5 {
        10
    } else if rank == 6 {
        8
    } else if rank == 7 {
        6
    } else if rank == 8 {
        4
    } else if rank == 9 {
        2
    } else if rank == 10 {
        1
    } else {
        0
    }
}

fn points(rank: u32) -> (p: u32)
    ensures
        p == points_for(rank as int),
{
    match rank {
        1 => 25,
        2 => 18,
        3 => 15,
        4 => 12,
        5 => 10,
        6 => 8,
        7 => 6,
        8 => 4,
        9 => 2,
        10 => 1,
        _ => 0,
    }
}

/// Every row of every board, oldest board first.
pub open spec fn all_rows(history: Seq<Leaderboard>) -> Seq<LeaderboardRow>
    decreases history.len(),
{
    if history.len() == 0 {
        Seq::empty()
    } else {
        all_rows(history.drop_last()) + history.last().rows@
    }
}

/// Participant `k` has a row somewhere in `rs`.
pub open spec fn appears(rs: Seq<LeaderboardRow>, k: Seq<char>) -> bool {
    exists|i: int| 0 <= i < rs.len() && (#[trigger] rs[i]).result.participant@ == k
}

/// A participant's running totals across the rows seen so far: the compounded
/// growth factor `Π(1 + rᵢ)` (`None` once it stops fitting), wins, active
/// days and points.
pub ghost struct Standing {
    pub factor: Option<(int, int)>,
    pub wins: int,
    pub active_days: int,
    pub points: int,
}

pub open spec fn fresh_standing() -> Standing {
    Standing { factor: Some((1, 0)), wins: 0, active_days: 0, points: 0 }
}

/// One more row for the participant.
pub open spec fn step(st: Standing, row: LeaderboardRow) -> Standing {
    Standing {
        factor: match st.factor {
            None => None,
            Some(f) => match decimal_sum((1, 0), row.result.daily_return@) {
                None => None,
                Some(g) => decimal_product(f, g),
            },
        },
        wins: st.wins + if row.rank == 1 {
            1int
        } else {
            0int
        },
        active_days: st.active_days + if row.result.active {
            1int
        } else {
            0int
        },
        points: st.points + points_for(row.rank as int),
    }
}

pub open spec fn standing(rs: Seq<LeaderboardRow>, k: Seq<char>) -> Standing
    decreases rs.len(),
{
    if rs.len() == 0 {
        fresh_standing()
    } else if rs.last().result.participant@ == k {
        step(standing(rs.drop_last(), k), rs.last())
    } else {
        standing(rs.drop_last(), k)
    }
}

/// `Π(1 + rᵢ) − 1`, rounded to [`RETURN_SCALE`]; `None` if it does not fit.
pub open spec fn compound_return(st: Standing) -> Option<(int, int)> {
    match st.factor {
        None => None,
        Some(f) => match decimal_difference(f, (1, 0)) {
            None => None,
            Some(d) => Some(round_half_even(d, RETURN_SCALE as int)),
        },
    }
}

/// A ladder row says what the history says of its participant.
pub open spec fn ladder_row_matches(row: LadderRow, rs: Seq<LeaderboardRow>) -> bool {
    let st = standing(rs, row.participant@);
    &&& appears(rs, row.participant@)
    &&& compound_return(st) == Some(row.cumulative_return@)
    &&& row.daily_wins == st.wins
    &&& row.active_days == st.active_days
    &&& row.points == st.points
    &&& row.eligible == (st.active_days > 0)
}

/// `x` sorts above `y`: eligible first, then compound return, daily wins and
/// active days descending, then participant id ascending.
pub open spec fn ladder_before(x: LadderRow, y: LadderRow) -> bool {
    ||| x.eligible && !y.eligible
    ||| x.eligible == y.eligible && dec_lt(y.cumulative_return@, x.cumulative_return@)
    ||| x.eligible == y.eligible && dec_eq(x.cumulative_return@, y.cumulative_return@)
        && x.daily_wins > y.daily_wins
    ||| x.eligible == y.eligible && dec_eq(x.cumulative_return@, y.cumulative_return@)
        && x.daily_wins == y.daily_wins && x.active_days > y.active_days
    ||| x.eligible == y.eligible && dec_eq(x.cumulative_return@, y.cumulative_return@)
        && x.daily_wins == y.daily_wins && x.active_days == y.active_days && lex_lt(
        x.participant@,
        y.participant@,
    )
}

pub open spec fn in_ladder_order(s: Seq<LadderRow>) -> bool {
    forall|i: int, j: int| 0 <= i < j < s.len() ==> !ladder_before(#[trigger] s[j], #[trigger] s[i])
}

/// Placement numbers go to eligible rows only, contiguous from one.
pub open spec fn placed(s: Seq<LadderRow>) -> bool {
    forall|i: int|
        0 <= i < s.len() ==> (#[trigger] s[i]).rank == if s[i].eligible {
            Some((i + 1) as u32)
        } else {
            None
        }
}

pub open spec fn distinct_ladder(s: Seq<LadderRow>) -> bool {
    forall|i: int, j: int|
        0 <= i < j < s.len() ==> (#[trigger] s[i]).participant@ != (#[trigger] s[j]).participant@
}

/// `k`'s compounded return cannot be represented.
pub open spec fn compounding_fails(rs: Seq<LeaderboardRow>, k: Seq<char>) -> bool {
    compound_return(standing(rs, k)) is None
}

pub proof fn lemma_ladder_order(a: LadderRow, b: LadderRow, c: LadderRow)
    ensures
        ladder_before(a, b) && ladder_before(b, c) ==> ladder_before(a, c),
        ladder_before(a, b) ==> !ladder_before(b, a),
        !ladder_before(a, a),
{
    lemma_dec_scales(a.cumulative_return);
    lemma_dec_scales(b.cumulative_return);
    lemma_dec_scales(c.cumulative_return);
    let (ra, rb, rc) = (a.cumulative_return@, b.cumulative_return@, c.cumulative_return@);
    lemma_dec_order(rc, rb, ra);
    lemma_dec_order(ra, rb, rc);
    lemma_dec_order(rb, ra, rb);
    lemma_dec_order(ra, rb, ra);
    lemma_dec_order(rb, rc, rb);
    lemma_dec_order(rc, rb, rc);
    lemma_dec_order(ra, rc, ra);
    lemma_dec_order(rc, ra, rc);
    lemma_dec_order(rb, rc, ra);
    lemma_dec_order(rc, ra, rb);
    lemma_dec_order(ra, ra, ra);
    if lex_lt(a.participant@, b.participant@) && lex_lt(b.participant@, c.participant@) {
        lemma_lex_transitive(a.participant@, b.participant@, c.participant@);
    }
    lemma_lex_asymmetric(a.participant@, b.participant@);
    lemma_lex_irreflexive(a.participant@);
}

/// The ladder order is total: of two rows for different participants, one
/// always comes first, so no ordering is left to the sort's discretion.
pub proof fn law_ladder_order_is_total(a: LadderRow, b: LadderRow)
    requires
        a.participant@ != b.participant@,
    ensures
        ladder_before(a, b) || ladder_before(b, a),
{
    lemma_lex_total(a.participant@, b.participant@);
}

proof fn lemma_standing_push(rs: Seq<LeaderboardRow>, row: LeaderboardRow, k: Seq<char>)
    ensures
        standing(rs.push(row), k) == if row.result.participant@ == k {
            step(standing(rs, k), row)
        } else {
            standing(rs, k)
        },
        appears(rs.push(row), k) == (appears(rs, k) || row.result.participant@ == k),
{
    assert(rs.push(row).drop_last() =~= rs);
    if appears(rs, k) {
        let i = choose|i: int| 0 <= i < rs.len() && (#[trigger] rs[i]).result.participant@ == k;
        assert(rs.push(row)[i] == rs[i]);
    }
    if row.result.participant@ == k {
        assert(rs.push(row)[rs.len() as int] == row);
    }
    if appears(rs.push(row), k) {
        let i = choose|i: int|
            0 <= i < rs.push(row).len() && (#[trigger] rs.push(row)[i]).result.participant@ == k;
        if i < rs.len() {
            assert(rs[i] == rs.push(row)[i]);
        }
    }
}

proof fn lemma_standing_absent(rs: Seq<LeaderboardRow>, k: Seq<char>)
    requires
        !appears(rs, k),
    ensures
        standing(rs, k) == fresh_standing(),
    decreases rs.len(),
{
    if rs.len() > 0 {
        assert(rs.drop_last().push(rs.last()) =~= rs);
        lemma_standing_push(rs.drop_last(), rs.last(), k);
        lemma_standing_absent(rs.drop_last(), k);
    }
}

proof fn lemma_standing_bounds(rs: Seq<LeaderboardRow>, k: Seq<char>)
    ensures
        0 <= standing(rs, k).wins <= rs.len(),
        0 <= standing(rs, k).active_days <= rs.len(),
        0 <= standing(rs, k).points <= 25 * rs.len(),
    decreases rs.len(),
{
    if rs.len() > 0 {
        lemma_standing_bounds(rs.drop_last(), k);
    }
}

proof fn lemma_standing_fails_stays(rs: Seq<LeaderboardRow>, more: Seq<LeaderboardRow>, k: Seq<char>)
    requires
        standing(rs, k).factor is None,
    ensures
        standing(rs + more, k).factor is None,
    decreases more.len(),
{
    if more.len() > 0 {
        lemma_standing_fails_stays(rs, more.drop_last(), k);
        assert((rs + more).drop_last() =~= rs + more.drop_last());
    }
}

proof fn lemma_appears_extend(rs: Seq<LeaderboardRow>, more: Seq<LeaderboardRow>, k: Seq<char>)
    requires
        appears(rs, k),
    ensures
        appears(rs + more, k),
{
    let i = choose|i: int| 0 <= i < rs.len() && (#[trigger] rs[i]).result.participant@ == k;
    assert((rs + more)[i] == rs[i]);
}

proof fn lemma_all_rows_step(history: Seq<Leaderboard>, b: int)
    requires
        0 <= b < history.len(),
    ensures
        all_rows(history.take(b + 1)) == all_rows(history.take(b)) + history[b].rows@,
{
    assert(history.take(b + 1).drop_last() =~= history.take(b));
}

proof fn lemma_all_rows_len(history: Seq<Leaderboard>, b: int)
    requires
        0 <= b <= history.len(),
    ensures
        all_rows(history.take(b)).len() <= all_rows(history).len(),
    decreases history.len() - b,
{
    if b < history.len() {
        lemma_all_rows_step(history, b);
        lemma_all_rows_len(history, b + 1);
    } else {
        assert(history.take(b) =~= history);
    }
}

/// A participant's running totals while the ladder is built.
struct Acc {
    participant: ParticipantId,
    factor: Dec,
    wins: u32,
    active_days: u32,
    points: u32,
}

spec fn acc_keys(accs: Seq<Acc>) -> Seq<Seq<char>> {
    accs.map_values(|a: Acc| a.participant@)
}

spec fn has_acc(accs: Seq<Acc>, k: Seq<char>) -> bool {
    exists|i: int| 0 <= i < accs.len() && (#[trigger] accs[i]).participant@ == k
}

spec fn acc_matches(a: Acc, rs: Seq<LeaderboardRow>) -> bool {
    let st = standing(rs, a.participant@);
    &&& st.factor == Some(a.factor@)
    &&& a.wins == st.wins
    &&& a.active_days == st.active_days
    &&& a.points == st.points
}

/// The running totals are exactly those of the rows seen so far, one per
/// participant seen, in id order.
spec fn accs_ok(accs: Seq<Acc>, rs: Seq<LeaderboardRow>) -> bool {
    &&& strictly_sorted(acc_keys(accs))
    &&& accs.len() <= rs.len()
    &&& forall|i: int| 0 <= i < accs.len() ==> acc_matches(#[trigger] accs[i], rs)
    &&& forall|k: Seq<char>| appears(rs, k) <==> has_acc(accs, k)
}

/// Fold one row into the running totals.
fn record(accs: &mut Vec<Acc>, row: &LeaderboardRow, Ghost(rs): Ghost<Seq<LeaderboardRow>>) -> (r:
    Result<(), ScoringError>)
    requires
        accs_ok(old(accs)@, rs),
        25 * (rs.len() + 1) <= u32::MAX,
    ensures
        r is Ok ==> accs_ok(final(accs)@, rs.push(*row)),
        r is Err ==> r == Err::<(), ScoringError>(ScoringError::Overflow(row.result.participant))
            && standing(rs.push(*row), row.result.participant@).factor is None && appears(
            rs.push(*row),
            row.result.participant@,
        ),
{
    let p = &row.result.participant;
    let ghost k = p@;
    let ghost keys = acc_keys(accs@);
    let ghost rs2 = rs.push(*row);
    proof {
        lemma_standing_push(rs, *row, k);
        lemma_standing_bounds(rs, k);
    }
    let mut i: usize = 0;
    loop
        invariant
            i <= accs@.len(),
            keys == acc_keys(accs@),
            k == p@,
            forall|j: int| 0 <= j < i ==> lex_lt(#[trigger] keys[j], k),
        ensures
            i <= accs@.len(),
            i < accs@.len() ==> !lex_lt(keys[i as int], k),
            forall|j: int| 0 <= j < i ==> lex_lt(#[trigger] keys[j], k),
        decreases accs@.len() - i,
    {
        if i >= accs.len() {
            break;
        }
        if !accs[i].participant.precedes(p) {
            break;
        }
        i = i + 1;
    }
    let found = i < accs.len() && accs[i].participant.same(p);
    proof {
        if found {
            assert(acc_matches(accs@[i as int], rs));
        } else {
            if has_acc(accs@, k) {
                let j = choose|j: int| 0 <= j < accs@.len() && (#[trigger] accs@[j]).participant@ == k;
                assert(keys[j] == k);
                if j < i {
                    lemma_lex_irreflexive(k);
                } else if j > i {
                    lemma_lex_total(keys[i as int], k);
                    assert(lex_lt(keys[i as int], keys[j]));
                } else {
                }
            }
            lemma_standing_absent(rs, k);
        }
    }
    let (factor, wins, active_days, pts) = if found {
        (accs[i].factor, accs[i].wins, accs[i].active_days, accs[i].points)
    } else {
        (Dec::one(), 0u32, 0u32, 0u32)
    };
    let g = match decimal_add(Dec::one(), row.result.daily_return) {
        Some(g) => g,
        None => {
            return Err(ScoringError::Overflow(p.clone()));
        },
    };
    let f = match decimal_mul(factor, g) {
        Some(f) => f,
        None => {
            return Err(ScoringError::Overflow(p.clone()));
        },
    };
    let acc = Acc {
        participant: p.clone(),
        factor: f,
        wins: if row.rank == 1 {
            wins + 1
        } else {
            wins
        },
        active_days: if row.result.active {
            active_days + 1
        } else {
            active_days
        },
        points: pts + points(row.rank),
    };
    let ghost old_accs = accs@;
    if found {
        accs.set(i, acc);
        proof {
            let n = accs@;
            assert(acc_keys(n) =~= keys);
            assert forall|j: int| 0 <= j < n.len() implies acc_matches(#[trigger] n[j], rs2) by {
                if j != i {
                    assert(n[j] == old_accs[j]);
                    assert(acc_matches(old_accs[j], rs));
                    assert(keys[j] != k) by {
                        if keys[j] == k {
                            lemma_sorted_unique(keys, i as int, j);
                        }
                    }
                    lemma_standing_push(rs, *row, n[j].participant@);
                }
            }
            assert forall|kk: Seq<char>| appears(rs2, kk) <==> has_acc(n, kk) by {
                lemma_standing_push(rs, *row, kk);
                if has_acc(old_accs, kk) {
                    let j = choose|j: int|
                        0 <= j < old_accs.len() && (#[trigger] old_accs[j]).participant@ == kk;
                    assert(n[j].participant@ == kk);
                }
                if has_acc(n, kk) {
                    let j = choose|j: int| 0 <= j < n.len() && (#[trigger] n[j]).participant@ == kk;
                    assert(old_accs[j].participant@ == kk);
                }
            }
        }
    } else {
        proof {
            if i < keys.len() {
                lemma_lex_total(keys[i as int], k);
            }
            lemma_sorted_insert(keys, i as int, k);
        }
        accs.insert(i, acc);
        proof {
            let n = accs@;
            assert(acc_keys(n) =~= keys.insert(i as int, k));
            assert forall|j: int| 0 <= j < n.len() implies acc_matches(#[trigger] n[j], rs2) by {
                if j < i {
                    assert(n[j] == old_accs[j]);
                    assert(acc_matches(old_accs[j], rs));
                    assert(keys[j] != k) by {
                        lemma_lex_irreflexive(k);
                    }
                    lemma_standing_push(rs, *row, n[j].participant@);
                } else if j > i {
                    assert(n[j] == old_accs[j - 1]);
                    assert(acc_matches(old_accs[j - 1], rs));
                    assert(keys[j - 1] != k) by {
                        lemma_lex_irreflexive(k);
                        lemma_lex_total(keys[i as int], k);
                        if j - 1 > i {
                            assert(lex_lt(keys[i as int], keys[j - 1]));
                            if keys[j - 1] == k {
                                lemma_lex_asymmetric(keys[i as int], k);
                            }
                        }
                    }
                    lemma_standing_push(rs, *row, n[j].participant@);
                }
            }
            assert forall|kk: Seq<char>| appears(rs2, kk) <==> has_acc(n, kk) by {
                lemma_standing_push(rs, *row, kk);
                if has_acc(old_accs, kk) {
                    let j = choose|j: int|
                        0 <= j < old_accs.len() && (#[trigger] old_accs[j]).participant@ == kk;
                    if j < i {
                        assert(n[j] == old_accs[j]);
                    } else {
                        assert(n[j + 1] == old_accs[j]);
                    }
                }
                if kk == k {
                    assert(n[i as int].participant@ == kk);
                }
                if has_acc(n, kk) {
                    let j = choose|j: int| 0 <= j < n.len() && (#[trigger] n[j]).participant@ == kk;
                    if j < i {
                        assert(old_accs[j] == n[j]);
                    } else if j > i {
                        assert(old_accs[j - 1] == n[j]);
                    }
                }
            }
        }
    }
    Ok(())
}


fn ladder_ranks_before(x: &LadderRow, y: &LadderRow) -> (r: bool)
    ensures
        r == ladder_before(*x, *y),
{
    if x.eligible != y.eligible {
        return x.eligible;
    }
    if decimal_less(y.cumulative_return, x.cumulative_return) {
        return true;
    }
    if decimal_less(x.cumulative_return, y.cumulative_return) {
        return false;
    }
    if x.daily_wins != y.daily_wins {
        return x.daily_wins > y.daily_wins;
    }
    if x.active_days != y.active_days {
        return x.active_days > y.active_days;
    }
    x.participant.precedes(&y.participant)
}

/// Sort ladder rows into ladder order, keeping every row.
fn ladder_order(rows: &Vec<LadderRow>) -> (out: Vec<LadderRow>)
    ensures
        in_ladder_order(out@),
        out@.to_multiset() == rows@.to_multiset(),
{
    let mut out: Vec<LadderRow> = Vec::new();
    let mut i: usize = 0;
    while i < rows.len()
        invariant
            i <= rows@.len(),
            in_ladder_order(out@),
            out@.to_multiset() == rows@.take(i as int).to_multiset(),
        decreases rows@.len() - i,
    {
        let x = rows[i].clone();
        let mut p: usize = 0;
        loop
            invariant
                p <= out@.len(),
                forall|k: int| 0 <= k < p ==> !ladder_before(x, #[trigger] out@[k]),
            ensures
                p <= out@.len(),
                forall|k: int| 0 <= k < p ==> !ladder_before(x, #[trigger] out@[k]),
                p < out@.len() ==> ladder_before(x, out@[p as int]),
            decreases out@.len() - p,
        {
            if p >= out.len() {
                break;
            }
            if ladder_ranks_before(&x, &out[p]) {
                break;
            }
            p = p + 1;
        }
        let ghost before = out@;
        out.insert(p, x);
        proof {
            let n = out@;
            assert(n == before.insert(p as int, x));
            assert forall|a: int, b: int| 0 <= a < b < n.len() implies !ladder_before(
                #[trigger] n[b],
                #[trigger] n[a],
            ) by {
                if a < p && b < p {
                    assert(n[a] == before[a] && n[b] == before[b]);
                } else if a < p && b == p {
                    assert(n[a] == before[a]);
                } else if a < p {
                    assert(n[a] == before[a] && n[b] == before[b - 1]);
                } else if a == p {
                    assert(n[b] == before[b - 1]);
                    lemma_ladder_order(before[b - 1], x, before[p as int]);
                    if b - 1 > p {
                        assert(!ladder_before(before[b - 1], before[p as int]));
                    }
                } else {
                    assert(n[a] == before[a - 1] && n[b] == before[b - 1]);
                }
            }
            assert(rows@.take(i + 1) =~= rows@.take(i as int).push(rows@[i as int]));
        }
        i = i + 1;
    }
    assert(rows@.take(i as int) =~= rows@);
    out
}

/// Build the overall ladder from every closed day, oldest first.
///
/// Cumulative return is `Π(1 + rᵢ) − 1`. Sort keys: compound return
/// descending, then daily wins, then active days, then participant id — with
/// ineligible participants (no active day at all) listed last and unplaced.
pub fn ladder(history: &[Leaderboard]) -> (r: Result<Vec<LadderRow>, ScoringError>)
    requires
        25 * (all_rows(history@).len() + 1) <= u32::MAX,
    ensures
        match r {
            Ok(rows) => {
                &&& in_ladder_order(rows@)
                &&& placed(rows@)
                &&& distinct_ladder(rows@)
                &&& forall|i: int|
                    0 <= i < rows@.len() ==> ladder_row_matches(
                        #[trigger] rows@[i],
                        all_rows(history@),
                    )
                &&& forall|k: Seq<char>|
                    appears(all_rows(history@), k) ==> exists|i: int|
                        0 <= i < rows@.len() && (#[trigger] rows@[i]).participant@ == k
                &&& forall|k: Seq<char>|
                    appears(all_rows(history@), k) ==> !compounding_fails(all_rows(history@), k)
            },
            Err(e) => e matches ScoringError::Overflow(p) && appears(all_rows(history@), p@)
                && compounding_fails(all_rows(history@), p@),
        },
{
    let ghost h = history@;
    let mut accs: Vec<Acc> = Vec::new();
    let mut b: usize = 0;
    while b < history.len()
        invariant
            h == history@,
            b <= h.len(),
            accs_ok(accs@, all_rows(h.take(b as int))),
            25 * (all_rows(h).len() + 1) <= u32::MAX,
        decreases h.len() - b,
    {
        let board = &history[b];
        let ghost done = all_rows(h.take(b as int));
        proof {
            lemma_all_rows_step(h, b as int);
            lemma_all_rows_len(h, b + 1);
        }
        let mut i: usize = 0;
        while i < board.rows.len()
            invariant
                h == history@,
                b < h.len(),
                *board == h[b as int],
                done == all_rows(h.take(b as int)),
                all_rows(h.take(b + 1)) == done + board.rows@,
                all_rows(h.take(b + 1)).len() <= all_rows(h).len(),
                i <= board.rows@.len(),
                accs_ok(accs@, done + board.rows@.take(i as int)),
                25 * (all_rows(h).len() + 1) <= u32::MAX,
            decreases board.rows@.len() - i,
        {
            let ghost seen = done + board.rows@.take(i as int);
            proof {
                assert(seen.len() < all_rows(h.take(b + 1)).len());
            }
            match record(&mut accs, &board.rows[i], Ghost(seen)) {
                Ok(()) => {},
                Err(e) => {
                    proof {
                        let row = board.rows@[i as int];
                        let rest = board.rows@.skip(i + 1);
                        assert(seen.push(row) + rest =~= all_rows(h.take(b + 1)));
                        lemma_standing_fails_stays(seen.push(row), rest, row.result.participant@);
                        lemma_appears_extend(seen.push(row), rest, row.result.participant@);
                        let tail = all_rows(h).skip(all_rows(h.take(b + 1)).len() as int);
                        assert(all_rows(h) =~= all_rows(h.take(b + 1)) + tail) by {
                            lemma_all_rows_prefix(h, b + 1);
                        }
                        lemma_standing_fails_stays(
                            all_rows(h.take(b + 1)),
                            tail,
                            row.result.participant@,
                        );
                        lemma_appears_extend(all_rows(h.take(b + 1)), tail, row.result.participant@);
                    }
                    return Err(e);
                },
            }
            proof {
                assert(seen.push(board.rows@[i as int]) =~= done + board.rows@.take(i + 1));
            }
            i = i + 1;
        }
        proof {
            assert(board.rows@.take(i as int) =~= board.rows@);
        }
        b = b + 1;
    }
    proof {
        assert(h.take(b as int) =~= h);
    }
    let ghost all = all_rows(h);
    // One row per participant, in id order.
    let mut rows: Vec<LadderRow> = Vec::new();
    let mut j: usize = 0;
    while j < accs.len()
        invariant
            all == all_rows(history@),
            accs_ok(accs@, all),
            25 * (all.len() + 1) <= u32::MAX,
            j <= accs@.len(),
            rows@.len() == j,
            forall|q: int| 0 <= q < j ==> ladder_row_matches(#[trigger] rows@[q], all),
            forall|q: int| 0 <= q < j ==> (#[trigger] rows@[q]).participant@ == accs@[q].participant@,
            forall|q: int| 0 <= q < j ==> !compounding_fails(all, #[trigger] accs@[q].participant@),
        decreases accs@.len() - j,
    {
        let a = &accs[j];
        proof {
            assert(acc_matches(accs@[j as int], all));
            lemma_standing_bounds(all, a.participant@);
            assert(has_acc(accs@, a.participant@));
        }
        let cum = match decimal_sub(a.factor, Dec::one()) {
            Some(d) => decimal_round(d, RETURN_SCALE),
            None => {
                return Err(ScoringError::Overflow(a.participant.clone()));
            },
        };
        rows.push(
            LadderRow {
                rank: None,
                participant: a.participant.clone(),
                cumulative_return: cum,
                daily_wins: a.wins,
                active_days: a.active_days,
                points: a.points,
                eligible: a.active_days > 0,
            },
        );
        j = j + 1;
    }
    proof {
        assert forall|k: Seq<char>| appears(all, k) implies !compounding_fails(all, k) by {
            let q = choose|q: int| 0 <= q < accs@.len() && (#[trigger] accs@[q]).participant@ == k;
            assert(!compounding_fails(all, accs@[q].participant@));
        }
    }
    let ghost unsorted = rows@;
    assert(distinct_ladder(unsorted)) by {
        assert forall|x: int, y: int| 0 <= x < y < unsorted.len() implies (
        #[trigger] unsorted[x]).participant@ != (#[trigger] unsorted[y]).participant@ by {
            assert(acc_keys(accs@)[x] == unsorted[x].participant@);
            assert(acc_keys(accs@)[y] == unsorted[y].participant@);
            if unsorted[x].participant@ == unsorted[y].participant@ {
                lemma_lex_irreflexive(unsorted[x].participant@);
            }
        }
    }
    let sorted = ladder_order(&rows);
    assert(sorted@.len() == unsorted.len()) by {
        assert(sorted@.to_multiset().len() == unsorted.to_multiset().len());
    }
    proof {
        assert(unsorted.no_duplicates());
        unsorted.lemma_multiset_has_no_duplicates();
        assert forall|x: LadderRow| sorted@.to_multiset().contains(x) implies sorted@.to_multiset().count(
            x,
        ) == 1 by {
        }
        sorted@.lemma_multiset_has_no_duplicates_conv();
    }
    let mut out: Vec<LadderRow> = Vec::new();
    let mut i: usize = 0;
    while i < sorted.len()
        invariant
            all == all_rows(history@),
            i <= sorted@.len(),
            out@.len() == i,
            sorted@.len() == unsorted.len(),
            unsorted.len() <= u32::MAX,
            forall|q: int|
                0 <= q < i ==> (#[trigger] out@[q]) == (LadderRow {
                    rank: if sorted@[q].eligible {
                        Some((q + 1) as u32)
                    } else {
                        None
                    },
                    ..sorted@[q]
                }),
        decreases sorted@.len() - i,
    {
        let mut row = sorted[i].clone();
        row.rank = if row.eligible {
            Some((i + 1) as u32)
        } else {
            None
        };
        out.push(row);
        i = i + 1;
    }
    proof {
        assert(sorted@.len() == unsorted.len()) by {
            assert(sorted@.to_multiset().len() == unsorted.to_multiset().len());
        }
        assert forall|x: int| 0 <= x < sorted@.len() implies sorted@.contains(#[trigger] sorted@[x]) by {
        }
        assert forall|x: int| 0 <= x < sorted@.len() implies ladder_row_matches(
            #[trigger] sorted@[x],
            all,
        ) && exists|q: int| 0 <= q < unsorted.len() && unsorted[q] == sorted@[x] by {
            assert(sorted@.to_multiset().count(sorted@[x]) > 0);
            assert(unsorted.contains(sorted@[x]));
        }
        assert(in_ladder_order(out@)) by {
            assert forall|x: int, y: int| 0 <= x < y < out@.len() implies !ladder_before(
                #[trigger] out@[y],
                #[trigger] out@[x],
            ) by {
                assert(!ladder_before(sorted@[y], sorted@[x]));
            }
        }
        assert(distinct_ladder(out@)) by {
            assert forall|x: int, y: int| 0 <= x < y < out@.len() implies (
            #[trigger] out@[x]).participant@ != (#[trigger] out@[y]).participant@ by {
                let qx = choose|q: int| 0 <= q < unsorted.len() && unsorted[q] == sorted@[x];
                let qy = choose|q: int| 0 <= q < unsorted.len() && unsorted[q] == sorted@[y];
                assert(sorted@[x] != sorted@[y]);
                assert(qx != qy);
                if qx < qy {
                    assert(unsorted[qx].participant@ != unsorted[qy].participant@);
                } else {
                    assert(unsorted[qy].participant@ != unsorted[qx].participant@);
                }
            }
        }
        assert forall|x: int| 0 <= x < out@.len() implies ladder_row_matches(#[trigger] out@[x], all) by {
            assert(ladder_row_matches(sorted@[x], all));
        }
        assert forall|k: Seq<char>| appears(all, k) implies exists|x: int|
            0 <= x < out@.len() && (#[trigger] out@[x]).participant@ == k by {
            let q = choose|q: int| 0 <= q < accs@.len() && (#[trigger] accs@[q]).participant@ == k;
            assert(unsorted[q].participant@ == k);
            assert(unsorted.contains(unsorted[q]));
            assert(unsorted.to_multiset().count(unsorted[q]) > 0);
            assert(sorted@.contains(unsorted[q]));
            let x = choose|x: int| 0 <= x < sorted@.len() && sorted@[x] == unsorted[q];
            assert(out@[x].participant@ == k);
        }
        assert(placed(out@));
    }
    Ok(out)
}

proof fn lemma_all_rows_prefix(history: Seq<Leaderboard>, b: int)
    requires
        0 <= b <= history.len(),
    ensures
        all_rows(history) == all_rows(history.take(b)) + all_rows(history).skip(
            all_rows(history.take(b)).len() as int,
        ),
        all_rows(history.take(b)).len() <= all_rows(history).len(),
        all_rows(history) .take(all_rows(history.take(b)).len() as int) == all_rows(history.take(b)),
    decreases history.len() - b,
{
    if b < history.len() {
        lemma_all_rows_prefix(history, b + 1);
        lemma_all_rows_step(history, b);
        let x = all_rows(history.take(b));
        let y = all_rows(history.take(b + 1));
        assert(y.take(x.len() as int) =~= x);
        assert(all_rows(history).take(x.len() as int) =~= y.take(x.len() as int));
    } else {
        assert(history.take(b) =~= history);
    }
    let x = all_rows(history.take(b));
    assert(all_rows(history) =~= all_rows(history).take(x.len() as int) + all_rows(history).skip(
        x.len() as int,
    ));
}


// ---- what the ladder promises ---------------------------------------------------

/// The ladder's order, level by level: eligible rows above ineligible ones;
/// then the higher compound return; on equal returns more daily wins; on
/// equal wins more active days (the tie breaks toward the participant who
/// actually competed); last, the lower participant id.
pub proof fn law_ladder_order_levels(rows: Seq<LadderRow>)
    requires
        in_ladder_order(rows),
    ensures
        forall|i: int, j: int|
            #![trigger rows[i], rows[j]]
            0 <= i < j < rows.len() ==> {
                let (x, y) = (rows[i], rows[j]);
                &&& y.eligible ==> x.eligible
                &&& x.eligible == y.eligible ==> !dec_lt(x.cumulative_return@, y.cumulative_return@)
                &&& x.eligible == y.eligible && dec_eq(x.cumulative_return@, y.cumulative_return@)
                    ==> x.daily_wins >= y.daily_wins
                &&& x.eligible == y.eligible && dec_eq(x.cumulative_return@, y.cumulative_return@)
                    && x.daily_wins == y.daily_wins ==> x.active_days >= y.active_days
                &&& x.eligible == y.eligible && dec_eq(x.cumulative_return@, y.cumulative_return@)
                    && x.daily_wins == y.daily_wins && x.active_days == y.active_days ==> !lex_lt(
                    y.participant@,
                    x.participant@,
                )
            },
{
    assert forall|i: int, j: int| #![trigger rows[i], rows[j]] 0 <= i < j < rows.len() implies {
        let (x, y) = (rows[i], rows[j]);
        &&& y.eligible ==> x.eligible
        &&& x.eligible == y.eligible ==> !dec_lt(x.cumulative_return@, y.cumulative_return@)
        &&& x.eligible == y.eligible && dec_eq(x.cumulative_return@, y.cumulative_return@)
            ==> x.daily_wins >= y.daily_wins
        &&& x.eligible == y.eligible && dec_eq(x.cumulative_return@, y.cumulative_return@)
            && x.daily_wins == y.daily_wins ==> x.active_days >= y.active_days
        &&& x.eligible == y.eligible && dec_eq(x.cumulative_return@, y.cumulative_return@)
            && x.daily_wins == y.daily_wins && x.active_days == y.active_days ==> !lex_lt(
            y.participant@,
            x.participant@,
        )
    } by {
        let (x, y) = (rows[i], rows[j]);
        assert(!ladder_before(y, x));
        assert(dec_eq(x.cumulative_return@, y.cumulative_return@) ==> dec_eq(
            y.cumulative_return@,
            x.cumulative_return@,
        ));
    }
}

/// Formula-1 points for a daily placing: 25, 18, 15, 12, 10, 8, 6, 4, 2, 1
/// for first to tenth, nothing below.
pub open spec fn f1_points(rank: int) -> int {
    if 1 <= rank <= 10 {
        seq![25int, 18, 15, 12, 10, 8, 6, 4, 2, 1][rank - 1]
    } else {
        0
    }
}

/// The Formula-1 points of `k`'s placings on the boards `rs`, summed.
pub open spec fn f1_total(rs: Seq<LeaderboardRow>, k: Seq<char>) -> int
    decreases rs.len(),
{
    if rs.len() == 0 {
        0
    } else if rs.last().result.participant@ == k {
        f1_total(rs.drop_last(), k) + f1_points(rs.last().rank as int)
    } else {
        f1_total(rs.drop_last(), k)
    }
}

/// A daily placing scores by the Formula-1 table.
pub proof fn law_placings_score_by_the_f1_table(rank: int)
    ensures
        points_for(rank) == f1_points(rank),
{
}

/// A ladder row's points are the Formula-1 points of every daily placing of
/// its participant, summed over the closed days.
pub proof fn law_ladder_points_sum_the_f1_table(row: LadderRow, rs: Seq<LeaderboardRow>)
    requires
        ladder_row_matches(row, rs),
    ensures
        row.points == f1_total(rs, row.participant@),
{
    lemma_standing_points(rs, row.participant@);
}

proof fn lemma_standing_points(rs: Seq<LeaderboardRow>, k: Seq<char>)
    ensures
        standing(rs, k).points == f1_total(rs, k),
    decreases rs.len(),
{
    if rs.len() > 0 {
        lemma_standing_points(rs.drop_last(), k);
        law_placings_score_by_the_f1_table(rs.last().rank as int);
    }
}

} // verus!
