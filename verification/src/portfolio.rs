//! A participant's book: cash, positions, and P&L split into realized and
//! unrealized.
//!
//! The portfolio is a fold over fills. Positions and marks are kept in
//! symbol order, so every iteration is a property of the data, never of a hash
//! seed.
use vstd::prelude::*;

use crate::error::DomainError;
use crate::ids::{ParticipantId, Symbol};
use crate::money::{money_range, Money, Px, Qty};
use crate::order::Side;
use crate::position::{buy_outcome, sell_outcome, Position, PositionError};
use crate::keyed::{
    lemma_slot_is_count, lemma_sorted_insert, lemma_sorted_unique, lemma_upsert_insert,
    lemma_upsert_update, strictly_sorted, upsert,
};
use crate::text::{lemma_lex_total, lex_lt};

verus! {

broadcast use {
    crate::money::group_money,
    Position::lemma_of,
    Position::lemma_sym,
};

#[derive(Debug, Clone, PartialEq, Eq)]
pub enum PortfolioError {
    InsufficientCash { need: Money, have: Money },
    /// A held symbol with no price: refusing to value it rather than calling it zero.
    MissingMark { symbol: Symbol },
    Position(PositionError),
    Domain(DomainError),
}

/// One execution, as the portfolio sees it.
#[derive(Debug, PartialEq, Eq)]
pub struct Fill {
    pub symbol: Symbol,
    pub side: Side,
    pub qty: Qty,
    pub px: Px,
    pub fee: Money,
}

impl Clone for Fill {
    fn clone(&self) -> (r: Self)
        ensures
            r == *self,
    {
        Fill {
            symbol: self.symbol.clone(),
            side: self.side,
            qty: self.qty,
            px: self.px,
            fee: self.fee,
        }
    }
}

// ---- marks --------------------------------------------------------------------

/// The prices positions are valued at, in symbol order. Supplied by the
/// caller; nothing here invents one.
#[derive(Debug, PartialEq, Eq)]
pub struct Marks {
    entries: Vec<(Symbol, Px)>,
}

impl Clone for Marks {
    fn clone(&self) -> (r: Self)
        ensures
            r@ == self@,
    {
        proof {
            use_type_invariant(self);
        }
        let mut entries: Vec<(Symbol, Px)> = Vec::new();
        let mut i: usize = 0;
        while i < self.entries.len()
            invariant
                i <= self.entries@.len(),
                entries@ == self.entries@.take(i as int),
            decreases self.entries@.len() - i,
        {
            let e = &self.entries[i];
            entries.push((e.0.clone(), e.1));
            i = i + 1;
            assert(entries@ =~= self.entries@.take(i as int));
        }
        assert(self.entries@.take(i as int) =~= self.entries@);
        Marks { entries }
    }
}

pub open spec fn mark_keys(entries: Seq<(Symbol, Px)>) -> Seq<Seq<char>> {
    entries.map_values(|e: (Symbol, Px)| e.0@)
}

impl View for Marks {
    type V = Seq<(Symbol, Px)>;

    closed spec fn view(&self) -> Seq<(Symbol, Px)> {
        self.entries@
    }
}

/// The mark for a symbol, if there is one.
pub open spec fn mark_for(entries: Seq<(Symbol, Px)>, k: Seq<char>) -> Option<Px> {
    if has_mark(entries, k) {
        Some(entries[mark_index(entries, k)].1)
    } else {
        None
    }
}

pub open spec fn has_mark(entries: Seq<(Symbol, Px)>, k: Seq<char>) -> bool {
    exists|i: int| 0 <= i < entries.len() && (#[trigger] entries[i]).0@ == k
}

pub open spec fn mark_index(entries: Seq<(Symbol, Px)>, k: Seq<char>) -> int {
    choose|i: int| 0 <= i < entries.len() && (#[trigger] entries[i]).0@ == k
}

/// In sorted marks, the mark found for a key is the one stored with it.
pub proof fn lemma_mark_at(entries: Seq<(Symbol, Px)>, i: int)
    requires
        strictly_sorted(mark_keys(entries)),
        0 <= i < entries.len(),
    ensures
        mark_for(entries, entries[i].0@) == Some(entries[i].1),
{
    let k = entries[i].0@;
    assert(mark_keys(entries)[i] == k);
    assert(0 <= i < entries.len() && (entries[i]).0@ == k);
    assert(has_mark(entries, k));
    let j = mark_index(entries, k);
    assert(0 <= j < entries.len() && entries[j].0@ == k);
    assert(mark_keys(entries)[j] == k);
    lemma_sorted_unique(mark_keys(entries), i, j);
    assert(mark_for(entries, k) == Some(entries[j].1));
}

impl Marks {
    #[verifier::type_invariant]
    spec fn inv(self) -> bool {
        strictly_sorted(mark_keys(self.entries@))
    }

    pub fn new() -> (m: Marks)
        ensures
            m@.len() == 0,
    {
        Marks { entries: Vec::new() }
    }

    /// Set (or replace) the mark for a symbol.
    pub fn set(&mut self, symbol: Symbol, px: Px)
        ensures
            mark_for(final(self)@, symbol@) == Some(px),
            forall|k: Seq<char>| k != symbol@ ==> mark_for(final(self)@, k) == mark_for(old(self)@, k),
            final(self)@ == upsert(old(self)@, mark_keys(old(self)@), symbol@, (symbol, px)),
    {
        proof {
            use_type_invariant(&*self);
        }
        let mut entries: Vec<(Symbol, Px)> = Vec::new();
        std::mem::swap(&mut entries, &mut self.entries);
        let ghost old_entries = entries@;
        let ghost keys = mark_keys(entries@);
        let ghost k = symbol@;
        let mut i: usize = 0;
        loop
            invariant
                i <= entries@.len(),
                entries@ == old_entries,
                keys == mark_keys(entries@),
                strictly_sorted(keys),
                k == symbol@,
                forall|j: int| 0 <= j < i ==> lex_lt(#[trigger] keys[j], k),
            ensures
                i <= entries@.len(),
                i < entries@.len() ==> !lex_lt(keys[i as int], k),
                forall|j: int| 0 <= j < i ==> lex_lt(#[trigger] keys[j], k),
            decreases entries@.len() - i,
        {
            if i >= entries.len() {
                break;
            }
            if !entries[i].0.precedes(&symbol) {
                break;
            }
            assert(keys[i as int] == entries@[i as int].0@);
            i = i + 1;
        }
        if i < entries.len() && entries[i].0.same(&symbol) {
            proof {
                lemma_upsert_update(old_entries, keys, i as int, (symbol, px));
            }
            entries.set(i, (symbol, px));
            proof {
                let ne = entries@;
                assert(mark_keys(ne) =~= keys);
                lemma_mark_at(ne, i as int);
                assert forall|kk: Seq<char>| kk != k implies mark_for(ne, kk) == mark_for(
                    old_entries,
                    kk,
                ) by {
                    if has_mark(ne, kk) {
                        let j = mark_index(ne, kk);
                        lemma_mark_at(ne, j);
                        lemma_mark_at(old_entries, j);
                    } else {
                        assert forall|j: int| 0 <= j < old_entries.len() implies (
                        #[trigger] old_entries[j]).0@ != kk by {
                            assert(ne[j].0@ == old_entries[j].0@ || j == i);
                        }
                    }
                }
            }
        } else {
            proof {
                if i < keys.len() {
                    lemma_lex_total(keys[i as int], k);
                }
                lemma_sorted_insert(keys, i as int, k);
                lemma_upsert_insert(old_entries, keys, k, i as int, (symbol, px));
                assert(mark_keys(old_entries.insert(i as int, (symbol, px))) =~= keys.insert(i as int, k));
            }
            entries.insert(i, (symbol, px));
            proof {
                let ne = entries@;
                lemma_mark_at(ne, i as int);
                assert forall|kk: Seq<char>| kk != k implies mark_for(ne, kk) == mark_for(
                    old_entries,
                    kk,
                ) by {
                    if has_mark(ne, kk) {
                        let j = mark_index(ne, kk);
                        lemma_mark_at(ne, j);
                        if j < i {
                            lemma_mark_at(old_entries, j);
                        } else {
                            lemma_mark_at(old_entries, j - 1);
                        }
                    } else {
                        assert forall|j: int| 0 <= j < old_entries.len() implies (
                        #[trigger] old_entries[j]).0@ != kk by {
                            if j < i {
                                assert(ne[j] == old_entries[j]);
                            } else {
                                assert(ne[j + 1] == old_entries[j]);
                            }
                        }
                    }
                }
            }
        }
        self.entries = entries;
    }

    /// The mark for a symbol, if any.
    pub fn get(&self, symbol: &Symbol) -> (r: Option<Px>)
        ensures
            r == mark_for(self@, symbol@),
    {
        proof {
            use_type_invariant(self);
        }
        let mut i: usize = 0;
        while i < self.entries.len()
            invariant
                i <= self.entries@.len(),
                strictly_sorted(mark_keys(self.entries@)),
                forall|j: int| 0 <= j < i ==> (#[trigger] self.entries@[j]).0@ != symbol@,
            decreases self.entries@.len() - i,
        {
            if self.entries[i].0.same(symbol) {
                proof {
                    lemma_mark_at(self.entries@, i as int);
                }
                return Some(self.entries[i].1);
            }
            i = i + 1;
        }
        None
    }

    /// Every current mark, in symbol order: each symbol once, with its mark.
    pub fn iter(&self) -> (r: Vec<(Symbol, Px)>)
        ensures
            r@ == self@,
            strictly_sorted(mark_keys(r@)),
            forall|i: int| 0 <= i < r@.len() ==> mark_for(self@, (#[trigger] r@[i]).0@) == Some(r@[i].1),
    {
        proof {
            use_type_invariant(self);
            assert forall|i: int| 0 <= i < self@.len() implies mark_for(self@, (#[trigger] self@[i]).0@)
                == Some(self@[i].1) by {
                lemma_mark_at(self@, i);
            }
        }
        let mut out: Vec<(Symbol, Px)> = Vec::new();
        let mut i: usize = 0;
        while i < self.entries.len()
            invariant
                i <= self.entries@.len(),
                out@ == self.entries@.take(i as int),
            decreases self.entries@.len() - i,
        {
            let e = &self.entries[i];
            out.push((e.0.clone(), e.1));
            i = i + 1;
            assert(out@ =~= self.entries@.take(i as int));
        }
        assert(self.entries@.take(i as int) =~= self.entries@);
        out
    }
}

// ---- portfolio ----------------------------------------------------------------

pub open spec fn pos_keys(ps: Seq<Position>) -> Seq<Seq<char>> {
    ps.map_values(|p: Position| p.sym())
}

pub open spec fn has_pos(ps: Seq<Position>, k: Seq<char>) -> bool {
    exists|i: int| 0 <= i < ps.len() && (#[trigger] ps[i]).sym() == k
}

pub open spec fn pos_index(ps: Seq<Position>, k: Seq<char>) -> int {
    choose|i: int| 0 <= i < ps.len() && (#[trigger] ps[i]).sym() == k
}

/// The position kept for a symbol, if any (held or flat).
pub open spec fn pos_for(ps: Seq<Position>, k: Seq<char>) -> Option<Position> {
    if has_pos(ps, k) {
        Some(ps[pos_index(ps, k)])
    } else {
        None
    }
}

pub proof fn lemma_pos_at(ps: Seq<Position>, i: int)
    requires
        strictly_sorted(pos_keys(ps)),
        0 <= i < ps.len(),
    ensures
        pos_for(ps, ps[i].sym()) == Some(ps[i]),
{
    let k = ps[i].sym();
    assert(pos_keys(ps)[i] == k);
    assert(0 <= i < ps.len() && ps[i].sym() == k);
    assert(has_pos(ps, k));
    let j = pos_index(ps, k);
    assert(0 <= j < ps.len() && ps[j].sym() == k);
    assert(pos_keys(ps)[j] == k);
    lemma_sorted_unique(pos_keys(ps), i, j);
}

/// Total basis across every kept position.
pub open spec fn sum_basis(ps: Seq<Position>) -> int
    decreases ps.len(),
{
    if ps.len() == 0 {
        0
    } else {
        sum_basis(ps.drop_last()) + ps.last().basis()
    }
}

pub proof fn lemma_sum_basis_update(ps: Seq<Position>, i: int, p: Position)
    requires
        0 <= i < ps.len(),
    ensures
        sum_basis(ps.update(i, p)) == sum_basis(ps) - ps[i].basis() + p.basis(),
    decreases ps.len(),
{
    if i < ps.len() - 1 {
        assert(ps.update(i, p).drop_last() =~= ps.drop_last().update(i, p));
        lemma_sum_basis_update(ps.drop_last(), i, p);
    } else {
        assert(ps.update(i, p).drop_last() =~= ps.drop_last());
    }
}

pub proof fn lemma_sum_basis_insert(ps: Seq<Position>, i: int, p: Position)
    requires
        0 <= i <= ps.len(),
    ensures
        sum_basis(ps.insert(i, p)) == sum_basis(ps) + p.basis(),
    decreases ps.len(),
{
    if i < ps.len() {
        assert(ps.insert(i, p).drop_last() =~= ps.drop_last().insert(i, p));
        lemma_sum_basis_insert(ps.drop_last(), i, p);
    } else {
        assert(ps.insert(i, p).drop_last() =~= ps);
    }
}

/// The positions actually held (non-zero quantity), in symbol order.
pub open spec fn held_positions(ps: Seq<Position>) -> Seq<Position>
    decreases ps.len(),
{
    if ps.len() == 0 {
        ps
    } else if ps.last().held() != 0 {
        held_positions(ps.drop_last()).push(ps.last())
    } else {
        held_positions(ps.drop_last())
    }
}

/// Which figure a valuation sums per held position.
#[derive(Debug, Clone, Copy, PartialEq, Eq, Structural)]
pub enum Valuation {
    /// `qty × mark`
    MarketValue,
    /// `qty × mark − cost`
    Unrealized,
}

/// Sum a valuation over positions in symbol order, starting from `acc`. A held
/// position with no mark refuses the whole sum rather than counting as zero.
pub open spec fn value_fold(
    ps: Seq<Position>,
    marks: Seq<(Symbol, Px)>,
    kind: Valuation,
    acc: int,
) -> Result<int, PortfolioError>
    decreases ps.len(),
{
    if ps.len() == 0 {
        Ok(acc)
    } else {
        let p = ps[0];
        if p.held() == 0 {
            value_fold(ps.drop_first(), marks, kind, acc)
        } else {
            match mark_for(marks, p.sym()) {
                None => Err(PortfolioError::MissingMark { symbol: p.symbol_value() }),
                Some(m) => {
                    let mv = m@ * p.held();
                    let v = match kind {
                        Valuation::MarketValue => mv,
                        Valuation::Unrealized => mv - p.basis(),
                    };
                    if !money_range(mv) {
                        Err(
                            PortfolioError::Position(
                                PositionError::Domain(DomainError::Overflow("notional")),
                            ),
                        )
                    } else if !money_range(v) {
                        Err(
                            PortfolioError::Position(
                                PositionError::Domain(DomainError::Overflow("cash subtraction")),
                            ),
                        )
                    } else if !money_range(acc + v) {
                        Err(PortfolioError::Domain(DomainError::Overflow("cash addition")))
                    } else {
                        value_fold(ps.drop_first(), marks, kind, acc + v)
                    }
                },
            }
        }
    }
}

/// The portfolio as the values its contracts speak of.
pub ghost struct PortfolioView {
    pub participant: Seq<char>,
    pub starting_cash: int,
    pub cash: int,
    pub realized_pnl: int,
    pub fees_paid: int,
    pub positions: Seq<Position>,
}

#[derive(Debug, PartialEq, Eq)]
pub struct Portfolio {
    participant: ParticipantId,
    starting_cash: Money,
    cash: Money,
    realized_pnl: Money,
    /// Every fee ever charged, both sides: kept visible even though buy fees
    /// are also capitalised into the basis.
    fees_paid: Money,
    /// Kept in strictly increasing symbol order.
    positions: Vec<Position>,
}

impl Clone for Portfolio {
    fn clone(&self) -> (r: Self)
        ensures
            r@ == self@,
            r.participant_value() == self.participant_value(),
    {
        proof {
            use_type_invariant(self);
        }
        let mut positions: Vec<Position> = Vec::new();
        let mut i: usize = 0;
        while i < self.positions.len()
            invariant
                i <= self.positions@.len(),
                positions@ == self.positions@.take(i as int),
            decreases self.positions@.len() - i,
        {
            positions.push(self.positions[i].clone());
            i = i + 1;
            assert(positions@ =~= self.positions@.take(i as int));
        }
        assert(self.positions@.take(i as int) =~= self.positions@);
        Portfolio {
            participant: self.participant.clone(),
            starting_cash: self.starting_cash,
            cash: self.cash,
            realized_pnl: self.realized_pnl,
            fees_paid: self.fees_paid,
            positions,
        }
    }
}

impl View for Portfolio {
    type V = PortfolioView;

    closed spec fn view(&self) -> PortfolioView {
        PortfolioView {
            participant: self.participant@,
            starting_cash: self.starting_cash@,
            cash: self.cash@,
            realized_pnl: self.realized_pnl@,
            fees_paid: self.fees_paid@,
            positions: self.positions@,
        }
    }
}

/// The book adds up: cash plus the basis of what is held is what the
/// participant started with plus what they have realized.
pub open spec fn balanced(v: PortfolioView) -> bool {
    v.cash + sum_basis(v.positions) == v.starting_cash + v.realized_pnl
}

/// No flat position carries basis.
pub open spec fn tidy(v: PortfolioView) -> bool {
    forall|i: int| 0 <= i < v.positions.len() && (#[trigger] v.positions[i]).held() == 0
        ==> v.positions[i].basis() == 0
}

/// What one fill changes: the new cash, realized P&L and fees, and the new
/// quantity and basis of the fill's symbol.
pub ghost struct FillEffect {
    pub cash: int,
    pub realized_pnl: int,
    pub fees_paid: int,
    pub held: int,
    pub basis: int,
}

/// What booking `f` does to a book, or why it is refused.
pub open spec fn fill_effect(v: PortfolioView, f: Fill) -> Result<FillEffect, PortfolioError> {
    let k = f.symbol@;
    let found = pos_for(v.positions, k);
    let (held, basis) = match found {
        Some(p) => (p.held(), p.basis()),
        None => (0, 0),
    };
    match f.side {
        Side::Buy => {
            let notional = f.px@ * f.qty@;
            let outlay = notional + f.fee@;
            if !money_range(notional) {
                Err(PortfolioError::Domain(DomainError::Overflow("notional")))
            } else if !money_range(outlay) {
                Err(PortfolioError::Domain(DomainError::Overflow("cash addition")))
            } else if outlay > v.cash {
                Err(
                    PortfolioError::InsufficientCash {
                        need: Money::from_spec(outlay),
                        have: Money::from_spec(v.cash),
                    },
                )
            } else {
                match buy_outcome(held, basis, f.qty@, f.px@, f.fee@) {
                    Err(e) => Err(PortfolioError::Position(PositionError::Domain(e))),
                    Ok((o, nq, nc)) => if !money_range(v.cash - o) {
                        Err(PortfolioError::Domain(DomainError::Overflow("cash subtraction")))
                    } else if !money_range(v.fees_paid + f.fee@) {
                        Err(PortfolioError::Domain(DomainError::Overflow("cash addition")))
                    } else {
                        Ok(
                            FillEffect {
                                cash: v.cash - o,
                                realized_pnl: v.realized_pnl,
                                fees_paid: v.fees_paid + f.fee@,
                                held: nq,
                                basis: nc,
                            },
                        )
                    },
                }
            }
        },
        Side::Sell => match found {
            None => Err(
                PortfolioError::Position(
                    PositionError::InsufficientPosition {
                        symbol: f.symbol,
                        held: 0,
                        sell: f.qty@ as i64,
                    },
                ),
            ),
            Some(p) => if f.qty@ > held {
                Err(
                    PortfolioError::Position(
                        PositionError::InsufficientPosition {
                            symbol: p.symbol_value(),
                            held: held as i64,
                            sell: f.qty@ as i64,
                        },
                    ),
                )
            } else {
                match sell_outcome(held, basis, f.qty@, f.px@, f.fee@) {
                    Err(e) => Err(PortfolioError::Position(PositionError::Domain(e))),
                    Ok((pnl, net, nq, nc)) => if !money_range(v.cash + net) {
                        Err(PortfolioError::Domain(DomainError::Overflow("cash addition")))
                    } else if !money_range(v.realized_pnl + pnl) {
                        Err(PortfolioError::Domain(DomainError::Overflow("cash addition")))
                    } else if !money_range(v.fees_paid + f.fee@) {
                        Err(PortfolioError::Domain(DomainError::Overflow("cash addition")))
                    } else {
                        Ok(
                            FillEffect {
                                cash: v.cash + net,
                                realized_pnl: v.realized_pnl + pnl,
                                fees_paid: v.fees_paid + f.fee@,
                                held: nq,
                                basis: nc,
                            },
                        )
                    },
                }
            },
        },
    }
}

/// A sell of nothing against a flat position would divide by zero: the one
/// fill a book cannot take.
pub open spec fn fill_bookable(v: PortfolioView, f: Fill) -> bool {
    f.side == Side::Sell && f.qty@ == 0 ==> match pos_for(v.positions, f.symbol@) {
        Some(p) => p.held() > 0,
        None => true,
    }
}

impl Portfolio {
    #[verifier::type_invariant]
    spec fn inv(self) -> bool {
        &&& strictly_sorted(pos_keys(self.positions@))
        &&& balanced(self@)
        &&& forall|i: int| 0 <= i < self.positions@.len() ==> (#[trigger] self.positions@[i]).held() >= 0
    }

    /// Open a book with nothing but its starting cash.
    pub fn open(participant: ParticipantId, starting_cash: Money) -> (p: Portfolio)
        ensures
            p@.participant == participant@,
            p@.starting_cash == starting_cash@,
            p@.cash == starting_cash@,
            p@.realized_pnl == 0,
            p@.fees_paid == 0,
            p@.positions.len() == 0,
            p.participant_value() == participant,
    {
        Portfolio {
            participant,
            starting_cash,
            cash: starting_cash,
            realized_pnl: Money::zero(),
            fees_paid: Money::zero(),
            positions: Vec::new(),
        }
    }

    pub closed spec fn participant_value(self) -> ParticipantId {
        self.participant
    }

    /// Every kept position has a non-negative quantity, keys strictly sorted,
    /// and the book balances.
    pub fn facts(&self)
        ensures
            strictly_sorted(pos_keys(self@.positions)),
            balanced(self@),
            forall|i: int| 0 <= i < self@.positions.len() ==> (#[trigger] self@.positions[i]).held() >= 0,
    {
        proof {
            use_type_invariant(self);
        }
    }

    pub fn participant(&self) -> (r: &ParticipantId)
        ensures
            r@ == self@.participant,
            *r == self.participant_value(),
    {
        &self.participant
    }

    pub fn starting_cash(&self) -> (m: Money)
        ensures
            m@ == self@.starting_cash,
    {
        self.starting_cash
    }

    /// The cash balance.
    pub fn cash(&self) -> (m: Money)
        ensures
            m@ == self@.cash,
    {
        self.cash
    }

    /// Realized P&L — booked at each sell, never re-derived.
    pub fn realized_pnl(&self) -> (m: Money)
        ensures
            m@ == self@.realized_pnl,
    {
        self.realized_pnl
    }

    /// Total fees charged across every fill, both sides.
    pub fn fees_paid(&self) -> (m: Money)
        ensures
            m@ == self@.fees_paid,
    {
        self.fees_paid
    }

    /// The current positions: held ones only, in symbol order.
    pub fn positions(&self) -> (r: Vec<Position>)
        ensures
            r@ == held_positions(self@.positions),
    {
        let mut out: Vec<Position> = Vec::new();
        let mut i: usize = 0;
        while i < self.positions.len()
            invariant
                i <= self.positions@.len(),
                out@ == held_positions(self.positions@.take(i as int)),
            decreases self.positions@.len() - i,
        {
            assert(self.positions@.take(i + 1).drop_last() =~= self.positions@.take(i as int));
            if !self.positions[i].is_flat() {
                out.push(self.positions[i].clone());
            }
            i = i + 1;
        }
        assert(self.positions@.take(i as int) =~= self.positions@);
        out
    }

    /// The held position in `symbol`, if any.
    pub fn position(&self, symbol: &Symbol) -> (r: Option<&Position>)
        ensures
            match pos_for(self@.positions, symbol@) {
                Some(p) => if p.held() != 0 {
                    r == Some(&p)
                } else {
                    r is None
                },
                None => r is None,
            },
    {
        match self.locate(symbol) {
            Some(i) => {
                if self.positions[i].is_flat() {
                    None
                } else {
                    Some(&self.positions[i])
                }
            },
            None => None,
        }
    }

    /// Index of the kept position for `symbol`.
    fn locate(&self, symbol: &Symbol) -> (r: Option<usize>)
        ensures
            match r {
                Some(i) => i < self@.positions.len() && pos_for(self@.positions, symbol@) == Some(
                    self@.positions[i as int],
                ) && self@.positions[i as int].sym() == symbol@,
                None => pos_for(self@.positions, symbol@) is None,
            },
    {
        proof {
            use_type_invariant(self);
        }
        let mut i: usize = 0;
        while i < self.positions.len()
            invariant
                i <= self.positions@.len(),
                strictly_sorted(pos_keys(self.positions@)),
                forall|j: int| 0 <= j < i ==> (#[trigger] self.positions@[j]).sym() != symbol@,
            decreases self.positions@.len() - i,
        {
            if self.positions[i].symbol().same(symbol) {
                proof {
                    lemma_pos_at(self.positions@, i as int);
                }
                return Some(i);
            }
            i = i + 1;
        }
        None
    }

    /// Where `symbol` sits, or would be inserted, in symbol order.
    fn slot(&self, symbol: &Symbol) -> (r: usize)
        ensures
            r <= self@.positions.len(),
            forall|j: int| 0 <= j < r ==> lex_lt(#[trigger] pos_keys(self@.positions)[j], symbol@),
            r < self@.positions.len() ==> !lex_lt(pos_keys(self@.positions)[r as int], symbol@),
    {
        let mut i: usize = 0;
        loop
            invariant
                i <= self.positions@.len(),
                forall|j: int| 0 <= j < i ==> lex_lt(#[trigger] pos_keys(self.positions@)[j], symbol@),
            ensures
                i <= self.positions@.len(),
                forall|j: int| 0 <= j < i ==> lex_lt(#[trigger] pos_keys(self.positions@)[j], symbol@),
                i < self.positions@.len() ==> !lex_lt(pos_keys(self.positions@)[i as int], symbol@),
            decreases self.positions@.len() - i,
        {
            if i >= self.positions.len() {
                break;
            }
            if !self.positions[i].symbol().precedes(symbol) {
                break;
            }
            i = i + 1;
        }
        i
    }
}


// ---- keyed position sequences ---------------------------------------------------

/// Replacing the position kept at `i` with one for the same symbol keeps the
/// keys sorted and changes what is found for that symbol only.
pub proof fn lemma_pos_update(ps: Seq<Position>, i: int, p: Position)
    requires
        strictly_sorted(pos_keys(ps)),
        0 <= i < ps.len(),
        p.sym() == ps[i].sym(),
    ensures
        strictly_sorted(pos_keys(ps.update(i, p))),
        pos_for(ps.update(i, p), p.sym()) == Some(p),
        forall|k: Seq<char>| k != p.sym() ==> pos_for(ps.update(i, p), k) == pos_for(ps, k),
{
    let n = ps.update(i, p);
    assert(pos_keys(n) =~= pos_keys(ps));
    lemma_pos_at(n, i);
    assert forall|k: Seq<char>| k != p.sym() implies pos_for(n, k) == pos_for(ps, k) by {
        if has_pos(n, k) {
            let j = pos_index(n, k);
            lemma_pos_at(n, j);
            lemma_pos_at(ps, j);
        } else {
            assert forall|j: int| 0 <= j < ps.len() implies (#[trigger] ps[j]).sym() != k by {
                if j != i {
                    assert(n[j] == ps[j]);
                }
            }
        }
    }
}

/// Inserting a position for a new symbol at its place in symbol order keeps
/// the keys sorted and changes what is found for that symbol only.
pub proof fn lemma_pos_insert(ps: Seq<Position>, i: int, p: Position)
    requires
        strictly_sorted(pos_keys(ps)),
        0 <= i <= ps.len(),
        forall|j: int| 0 <= j < i ==> lex_lt(#[trigger] pos_keys(ps)[j], p.sym()),
        i < ps.len() ==> lex_lt(p.sym(), pos_keys(ps)[i]),
    ensures
        strictly_sorted(pos_keys(ps.insert(i, p))),
        pos_for(ps.insert(i, p), p.sym()) == Some(p),
        forall|k: Seq<char>| k != p.sym() ==> pos_for(ps.insert(i, p), k) == pos_for(ps, k),
{
    let n = ps.insert(i, p);
    lemma_sorted_insert(pos_keys(ps), i, p.sym());
    assert(pos_keys(n) =~= pos_keys(ps).insert(i, p.sym()));
    lemma_pos_at(n, i);
    assert forall|k: Seq<char>| k != p.sym() implies pos_for(n, k) == pos_for(ps, k) by {
        if has_pos(n, k) {
            let j = pos_index(n, k);
            lemma_pos_at(n, j);
            if j < i {
                lemma_pos_at(ps, j);
            } else {
                lemma_pos_at(ps, j - 1);
            }
        } else {
            assert forall|j: int| 0 <= j < ps.len() implies (#[trigger] ps[j]).sym() != k by {
                if j < i {
                    assert(n[j] == ps[j]);
                } else {
                    assert(n[j + 1] == ps[j]);
                }
            }
        }
    }
}

/// No flat position in the sequence carries basis.
pub open spec fn flat_carries_no_basis(ps: Seq<Position>) -> bool {
    forall|i: int| 0 <= i < ps.len() && (#[trigger] ps[i]).held() == 0 ==> ps[i].basis() == 0
}

pub proof fn lemma_sum_basis_first(ps: Seq<Position>)
    requires
        ps.len() > 0,
    ensures
        sum_basis(ps) == ps[0].basis() + sum_basis(ps.drop_first()),
    decreases ps.len(),
{
    if ps.len() > 1 {
        lemma_sum_basis_first(ps.drop_last());
        assert(ps.drop_last().drop_first() =~= ps.drop_first().drop_last());
        assert(ps.drop_first().last() == ps.last());
        assert(ps.drop_last()[0] == ps[0]);
        assert(sum_basis(ps.drop_first()) == sum_basis(ps.drop_first().drop_last())
            + ps.drop_first().last().basis());
    } else {
        assert(ps.drop_first().len() == 0);
        assert(ps.drop_last().len() == 0);
        assert(ps.last() == ps[0]);
        assert(sum_basis(ps.drop_last()) == 0);
        assert(sum_basis(ps.drop_first()) == 0);
    }
}

/// Market value and unrealized P&L, summed over the same positions, differ
/// by exactly the basis held — when no flat position carries any.
pub proof fn lemma_fold_difference(ps: Seq<Position>, marks: Seq<(Symbol, Px)>, a: int, b: int)
    requires
        flat_carries_no_basis(ps),
        value_fold(ps, marks, Valuation::MarketValue, a) is Ok,
        value_fold(ps, marks, Valuation::Unrealized, b) is Ok,
    ensures
        value_fold(ps, marks, Valuation::MarketValue, a)->Ok_0 - value_fold(
            ps,
            marks,
            Valuation::Unrealized,
            b,
        )->Ok_0 == a - b + sum_basis(ps),
    decreases ps.len(),
{
    if ps.len() > 0 {
        lemma_sum_basis_first(ps);
        let p = ps[0];
        assert(flat_carries_no_basis(ps.drop_first())) by {
            assert forall|i: int| 0 <= i < ps.drop_first().len() && (
            #[trigger] ps.drop_first()[i]).held() == 0 implies ps.drop_first()[i].basis() == 0 by {
                assert(ps.drop_first()[i] == ps[i + 1]);
            }
        }
        if p.held() == 0 {
            lemma_fold_difference(ps.drop_first(), marks, a, b);
        } else {
            let m = mark_for(marks, p.sym())->Some_0;
            let mv = m@ * p.held();
            lemma_fold_difference(ps.drop_first(), marks, a + mv, b + (mv - p.basis()));
        }
    }
}

// ---- booking and valuing ------------------------------------------------------

/// `after` is `before` with one fill's effect booked against symbol `k`.
pub open spec fn applied(
    before: PortfolioView,
    after: PortfolioView,
    k: Seq<char>,
    eff: FillEffect,
) -> bool {
    &&& after.participant == before.participant
    &&& after.starting_cash == before.starting_cash
    &&& after.cash == eff.cash
    &&& after.realized_pnl == eff.realized_pnl
    &&& after.fees_paid == eff.fees_paid
    &&& (pos_for(after.positions, k) matches Some(p) && p.held() == eff.held && p.basis()
        == eff.basis)
    &&& forall|j: Seq<char>| j != k ==> pos_for(after.positions, j) == pos_for(before.positions, j)
}

/// The position a fill leaves behind for its symbol.
pub open spec fn booked_position(v: PortfolioView, f: Fill, eff: FillEffect) -> Position {
    let symbol = match pos_for(v.positions, f.symbol@) {
        Some(p) => p.symbol_value(),
        None => f.symbol,
    };
    Position::of(symbol, Qty::from_spec(eff.held), Money::from_spec(eff.basis))
}

/// The book once a fill's effect is booked: the new balances, and the fill's
/// position stored under its symbol.
pub open spec fn booked(v: PortfolioView, f: Fill, eff: FillEffect) -> PortfolioView {
    PortfolioView {
        cash: eff.cash,
        realized_pnl: eff.realized_pnl,
        fees_paid: eff.fees_paid,
        positions: upsert(v.positions, pos_keys(v.positions), f.symbol@, booked_position(v, f, eff)),
        ..v
    }
}

/// A valuation of the whole book, from zero.
pub open spec fn valuation(v: PortfolioView, marks: Seq<(Symbol, Px)>, kind: Valuation) -> Result<
    int,
    PortfolioError,
> {
    value_fold(v.positions, marks, kind, 0)
}

/// Total portfolio value: `cash + Σ(qty × mark)`.
pub open spec fn total_value_of(v: PortfolioView, marks: Seq<(Symbol, Px)>) -> Result<
    int,
    PortfolioError,
> {
    match valuation(v, marks, Valuation::MarketValue) {
        Err(e) => Err(e),
        Ok(mv) => if money_range(v.cash + mv) {
            Ok(v.cash + mv)
        } else {
            Err(PortfolioError::Domain(DomainError::Overflow("cash addition")))
        },
    }
}

/// A money result as the value it carries.
pub open spec fn money_result_is(r: Result<Money, PortfolioError>, s: Result<int, PortfolioError>) -> bool {
    match s {
        Ok(v) => r matches Ok(m) && m@ == v,
        Err(e) => r == Err::<Money, PortfolioError>(e),
    }
}

/// Whatever the route, the book adds up: total value is starting cash plus
/// realized P&L plus unrealized P&L, whenever the book can be valued at all —
/// provided no flat position carries basis.
pub proof fn law_book_adds_up(v: PortfolioView, marks: Seq<(Symbol, Px)>)
    requires
        balanced(v),
        tidy(v),
        total_value_of(v, marks) is Ok,
        valuation(v, marks, Valuation::Unrealized) is Ok,
    ensures
        total_value_of(v, marks)->Ok_0 == v.starting_cash + v.realized_pnl + valuation(
            v,
            marks,
            Valuation::Unrealized,
        )->Ok_0,
{
    assert(flat_carries_no_basis(v.positions));
    lemma_fold_difference(v.positions, marks, 0, 0);
}

impl Portfolio {
    /// Book one fill.
    ///
    /// Validated before anything is mutated, so a refused fill leaves the
    /// book exactly as it was.
    pub fn apply(&mut self, fill: &Fill) -> (r: Result<(), PortfolioError>)
        requires
            fill_bookable(old(self)@, *fill),
        ensures
            match fill_effect(old(self)@, *fill) {
                Ok(eff) => r is Ok && applied(old(self)@, final(self)@, fill.symbol@, eff)
                    && final(self)@ == booked(old(self)@, *fill, eff)
                    && final(self).participant_value() == old(self).participant_value(),
                Err(e) => r == Err::<(), PortfolioError>(e) && *final(self) == *old(self),
            },
            tidy(old(self)@) && fill.qty@ > 0 ==> tidy(final(self)@),
    {
        proof {
            use_type_invariant(&*self);
        }
        let at = self.locate(&fill.symbol);
        match fill.side {
            Side::Buy => {
                let notional = match fill.px.notional(fill.qty) {
                    Ok(n) => n,
                    Err(e) => {
                        return Err(PortfolioError::Domain(e));
                    },
                };
                let outlay = match notional.checked_add(fill.fee) {
                    Ok(o) => o,
                    Err(e) => {
                        return Err(PortfolioError::Domain(e));
                    },
                };
                if outlay.raw() > self.cash.raw() {
                    // Reachable only if the pre-trade check upstream failed:
                    // booking it would leave a balance no later read could explain.
                    proof {
                        Money::lemma_view_injective(Money::from_spec(self.cash@), self.cash);
                    }
                    return Err(PortfolioError::InsufficientCash { need: outlay, have: self.cash });
                }
                let mut p = match at {
                    Some(i) => self.positions[i].clone(),
                    None => Position::flat(fill.symbol.clone()),
                };
                let spent = match p.buy(fill.qty, fill.px, fill.fee) {
                    Ok(o) => o,
                    Err(e) => {
                        return Err(PortfolioError::Position(e));
                    },
                };
                let cash = match self.cash.checked_sub(spent) {
                    Ok(c) => c,
                    Err(e) => {
                        return Err(PortfolioError::Domain(e));
                    },
                };
                let fees = match self.fees_paid.checked_add(fill.fee) {
                    Ok(f) => f,
                    Err(e) => {
                        return Err(PortfolioError::Domain(e));
                    },
                };
                let realized = self.realized_pnl;
                let _ = p.qty();
                let _ = p.cost();
                proof {
                    let eff = fill_effect(old(self)@, *fill)->Ok_0;
                    Position::lemma_ext(p, booked_position(old(self)@, *fill, eff));
                }
                self.commit(at, p, cash, realized, fees);
                Ok(())
            },
            Side::Sell => {
                let i = match at {
                    Some(i) => i,
                    None => {
                        return Err(
                            PortfolioError::Position(
                                PositionError::InsufficientPosition {
                                    symbol: fill.symbol.clone(),
                                    held: 0,
                                    sell: fill.qty.get(),
                                },
                            ),
                        );
                    },
                };
                let mut p = self.positions[i].clone();
                let _ = fill.qty.get();
                let realized = match p.sell(fill.qty, fill.px, fill.fee) {
                    Ok(z) => z,
                    Err(e) => {
                        return Err(PortfolioError::Position(e));
                    },
                };
                let cash = match self.cash.checked_add(realized.proceeds_net) {
                    Ok(c) => c,
                    Err(e) => {
                        return Err(PortfolioError::Domain(e));
                    },
                };
                let pnl = match self.realized_pnl.checked_add(realized.pnl) {
                    Ok(v) => v,
                    Err(e) => {
                        return Err(PortfolioError::Domain(e));
                    },
                };
                let fees = match self.fees_paid.checked_add(fill.fee) {
                    Ok(f) => f,
                    Err(e) => {
                        return Err(PortfolioError::Domain(e));
                    },
                };
                let _ = p.qty();
                let _ = p.cost();
                proof {
                    let eff = fill_effect(old(self)@, *fill)->Ok_0;
                    Position::lemma_ext(p, booked_position(old(self)@, *fill, eff));
                }
                self.commit(Some(i), p, cash, pnl, fees);
                Ok(())
            },
        }
    }

    /// Store `p` in the slot kept for its symbol and take the new balances,
    /// all in one step so the book is never seen half-booked.
    fn commit(
        &mut self,
        at: Option<usize>,
        p: Position,
        cash: Money,
        realized_pnl: Money,
        fees_paid: Money,
    )
        requires
            match at {
                Some(i) => i < old(self)@.positions.len() && old(self)@.positions[i as int].sym()
                    == p.sym(),
                None => pos_for(old(self)@.positions, p.sym()) is None,
            },
            cash@ + sum_basis(old(self)@.positions) - match at {
                Some(i) => old(self)@.positions[i as int].basis(),
                None => 0,
            } + p.basis() == old(self)@.starting_cash + realized_pnl@,
        ensures
            final(self)@.participant == old(self)@.participant,
            final(self)@.starting_cash == old(self)@.starting_cash,
            final(self)@.cash == cash@,
            final(self)@.realized_pnl == realized_pnl@,
            final(self)@.fees_paid == fees_paid@,
            pos_for(final(self)@.positions, p.sym()) == Some(p),
            forall|j: Seq<char>| j != p.sym() ==> pos_for(final(self)@.positions, j) == pos_for(old(self)@.positions, j),
            final(self).participant_value() == old(self).participant_value(),
            tidy(old(self)@) && (p.held() == 0 ==> p.basis() == 0) ==> tidy(final(self)@),
            final(self)@.positions == upsert(
                old(self)@.positions,
                pos_keys(old(self)@.positions),
                p.sym(),
                p,
            ),
    {
        proof {
            use_type_invariant(&*self);
        }
        let ghost before = self.positions@;
        let _ = p.qty();
        let s = self.slot(p.symbol());
        let mut taken = Portfolio::open(self.participant.clone(), self.starting_cash);
        std::mem::swap(self, &mut taken);
        proof {
            use_type_invariant(&taken);
        }
        let participant = taken.participant;
        let starting_cash = taken.starting_cash;
        let mut positions = taken.positions;
        assert(positions@ == before);
        match at {
            Some(i) => {
                proof {
                    lemma_pos_update(before, i as int, p);
                    lemma_sum_basis_update(before, i as int, p);
                    assert(pos_keys(before)[i as int] == p.sym());
                    lemma_upsert_update(before, pos_keys(before), i as int, p);
                }
                positions.set(i, p);
            },
            None => {
                proof {
                    if s < before.len() {
                        lemma_lex_total(pos_keys(before)[s as int], p.sym());
                        if pos_keys(before)[s as int] == p.sym() {
                            lemma_pos_at(before, s as int);
                        }
                    }
                    lemma_pos_insert(before, s as int, p);
                    lemma_sum_basis_insert(before, s as int, p);
                    lemma_upsert_insert(before, pos_keys(before), p.sym(), s as int, p);
                }
                positions.insert(s, p);
            },
        }
        *self = Portfolio { participant, starting_cash, cash, realized_pnl, fees_paid, positions };
    }

    /// Sum one valuation over the held positions, in symbol order. A held
    /// symbol with no mark is an error, never a silent zero.
    fn fold_positions(&self, marks: &Marks, kind: Valuation) -> (r: Result<Money, PortfolioError>)
        ensures
            money_result_is(r, valuation(self@, marks@, kind)),
    {
        let mut total = Money::zero();
        let mut i: usize = 0;
        assert(self.positions@.skip(0) =~= self@.positions);
        while i < self.positions.len()
            invariant
                i <= self.positions@.len(),
                valuation(self@, marks@, kind) == value_fold(
                    self.positions@.skip(i as int),
                    marks@,
                    kind,
                    total@,
                ),
            decreases self.positions@.len() - i,
        {
            proof {
                assert(self.positions@.skip(i as int).drop_first() =~= self.positions@.skip(i + 1));
                assert(self.positions@.skip(i as int)[0] == self.positions@[i as int]);
            }
            let p = &self.positions[i];
            if !p.is_flat() {
                let mark = match marks.get(p.symbol()) {
                    Some(m) => m,
                    None => {
                        return Err(PortfolioError::MissingMark { symbol: p.symbol().clone() });
                    },
                };
                let v = match kind {
                    Valuation::MarketValue => p.market_value(mark),
                    Valuation::Unrealized => p.unrealized(mark),
                };
                let v = match v {
                    Ok(v) => v,
                    Err(e) => {
                        return Err(PortfolioError::Position(e));
                    },
                };
                total = match total.checked_add(v) {
                    Ok(t) => t,
                    Err(e) => {
                        return Err(PortfolioError::Domain(e));
                    },
                };
            }
            i = i + 1;
        }
        proof {
            assert(self.positions@.skip(i as int).len() == 0);
        }
        Ok(total)
    }

    /// Unrealized P&L, summed across held positions. Fails
    /// closed on a missing mark.
    pub fn unrealized_pnl(&self, marks: &Marks) -> (r: Result<Money, PortfolioError>)
        ensures
            money_result_is(r, valuation(self@, marks@, Valuation::Unrealized)),
    {
        self.fold_positions(marks, Valuation::Unrealized)
    }

    /// Aggregate market value of held positions.
    pub fn market_value(&self, marks: &Marks) -> (r: Result<Money, PortfolioError>)
        ensures
            money_result_is(r, valuation(self@, marks@, Valuation::MarketValue)),
    {
        self.fold_positions(marks, Valuation::MarketValue)
    }

    /// Total portfolio value: `cash + Σ(qty × mark)`.
    pub fn total_value(&self, marks: &Marks) -> (r: Result<Money, PortfolioError>)
        ensures
            money_result_is(r, total_value_of(self@, marks@)),
    {
        let mv = self.market_value(marks)?;
        match self.cash.checked_add(mv) {
            Ok(t) => Ok(t),
            Err(e) => Err(PortfolioError::Domain(e)),
        }
    }
}


/// Buying never spends cash that is not there: a buy is refused for want of
/// cash exactly when its notional plus fee exceeds the cash, and a booked buy
/// takes exactly notional plus fee, leaving the cash non-negative.
pub proof fn law_a_buy_is_paid_in_full_from_cash(v: PortfolioView, f: Fill)
    requires
        f.side == Side::Buy,
    ensures
        fill_effect(v, f) matches Ok(eff) ==> eff.cash == v.cash - (f.px@ * f.qty@ + f.fee@)
            && eff.cash >= 0,
        money_range(f.px@ * f.qty@) && money_range(f.px@ * f.qty@ + f.fee@) && f.px@ * f.qty@
            + f.fee@ > v.cash ==> fill_effect(v, f) == Err::<FillEffect, PortfolioError>(
            PortfolioError::InsufficientCash {
                need: Money::from_spec(f.px@ * f.qty@ + f.fee@),
                have: Money::from_spec(v.cash),
            },
        ),
{
}

} // verus!
