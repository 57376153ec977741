//! A long position and its cost basis.
//!
//! Average cost is never stored: the position holds `qty` and `cost` — the
//! total basis of what is held — and the average is derived for display only.
//! Fees are capitalised on buy and expensed on sell: one convention, both sides.
use vstd::prelude::*;

use crate::error::DomainError;
use crate::ids::Symbol;
use crate::money::{money_range, Money, Px, Qty};

verus! {

broadcast use crate::money::group_money;

#[derive(Debug, Clone, PartialEq, Eq)]
pub enum PositionError {
    InsufficientPosition { symbol: Symbol, held: i64, sell: i64 },
    Domain(DomainError),
}

/// What a sell realized, so the caller can book it without recomputing.
#[derive(Debug, Clone, Copy, PartialEq, Eq, Structural)]
pub struct Realized {
    /// `proceeds − cost_removed − fee`.
    pub pnl: Money,
    /// Cash received: `proceeds − fee`.
    pub proceeds_net: Money,
}

#[derive(Debug, PartialEq, Eq)]
pub struct Position {
    symbol: Symbol,
    qty: Qty,
    cost: Money,
}

impl Clone for Position {
    fn clone(&self) -> (r: Self)
        ensures
            r == *self,
    {
        Position { symbol: self.symbol.clone(), qty: self.qty, cost: self.cost }
    }
}

/// Rust's truncating division (toward zero), for a positive divisor.
pub open spec fn trunc_div(a: int, b: int) -> int {
    if a >= 0 {
        a / b
    } else {
        -((-a) / b)
    }
}

/// The share of basis leaving with a sale of `sold` out of `held`:
/// `cost × sold / held`, truncated.
pub open spec fn basis_removed(cost: int, sold: int, held: int) -> int {
    trunc_div(cost * sold, held)
}

/// The outcome of buying `qty` at `px` with `fee` on a position of `held` at `cost`:
/// the outlay, or the overflow that refuses it.
pub open spec fn buy_outcome(held: int, cost: int, qty: int, px: int, fee: int) -> Result<
    (int, int, int),
    DomainError,
> {
    let notional = px * qty;
    let outlay = notional + fee;
    if !money_range(notional) {
        Err(DomainError::Overflow("notional"))
    } else if !money_range(outlay) {
        Err(DomainError::Overflow("cash addition"))
    } else if held + qty > i64::MAX {
        Err(DomainError::Overflow("quantity addition"))
    } else if !money_range(cost + outlay) {
        Err(DomainError::Overflow("cash addition"))
    } else {
        Ok((outlay, held + qty, cost + outlay))
    }
}

/// The quantity a refused buy leaves: advanced when only the basis
/// overflowed, since the quantity is added first.
pub open spec fn held_after_refused_buy(held: int, qty: int, px: int, fee: int) -> int {
    if money_range(px * qty) && money_range(px * qty + fee) && held + qty <= i64::MAX {
        held + qty
    } else {
        held
    }
}

/// The outcome of selling `qty` at `px` with `fee` out of `held` at `cost`:
/// `(pnl, proceeds_net, new qty, new cost)` or the overflow that refuses it.
/// (Selling more than is held is refused before this.)
pub open spec fn sell_outcome(held: int, cost: int, qty: int, px: int, fee: int) -> Result<
    (int, int, int, int),
    DomainError,
> {
    let removed = basis_removed(cost, qty, held);
    let proceeds = px * qty;
    if !money_range(proceeds) {
        Err(DomainError::Overflow("notional"))
    } else if !money_range(proceeds - fee) {
        Err(DomainError::Overflow("cash subtraction"))
    } else if !money_range(proceeds - removed) {
        Err(DomainError::Overflow("cash subtraction"))
    } else if !money_range(proceeds - removed - fee) {
        Err(DomainError::Overflow("cash subtraction"))
    } else {
        Ok((proceeds - removed - fee, proceeds - fee, held - qty, cost - removed))
    }
}

/// `cost × sold / held`, widened so the multiply cannot overflow, truncating.
/// It does not accumulate residue: the final sale has `sold == held`, so the
/// division is exact and takes the whole remaining basis with it.
fn cost_removed(cost: Money, sold: Qty, held: Qty) -> (r: Money)
    requires
        held@ > 0,
        0 <= sold@ <= held@,
    ensures
        r@ == basis_removed(cost@, sold@, held@),
        sold@ == held@ ==> r@ == cost@,
        cost@ >= 0 ==> 0 <= r@ <= cost@,
        cost@ < 0 ==> cost@ <= r@ <= 0,
{
    let c = cost.raw() as i128;
    let s = sold.get() as i128;
    let h = held.get() as i128;
    let ghost ci = c as int;
    let ghost si = s as int;
    let ghost hi = h as int;
    proof {
        assert(-0x8000_0000_0000_0000 * 0x7fff_ffff_ffff_ffff <= ci * si <= 0x7fff_ffff_ffff_ffff
            * 0x7fff_ffff_ffff_ffff) by (nonlinear_arith)
            requires
                -0x8000_0000_0000_0000 <= ci <= 0x7fff_ffff_ffff_ffff,
                0 <= si <= 0x7fff_ffff_ffff_ffff,
        ;
    }
    let n = c * s;
    let q: i128 = if n >= 0 {
        n / h
    } else {
        -((-n) / h)
    };
    proof {
        let ni = ci * si;
        if ci >= 0 {
            assert(0 <= ci * si <= ci * hi) by (nonlinear_arith)
                requires
                    ci >= 0,
                    0 <= si <= hi,
            ;
            assert(0 <= ni / hi <= ci) by (nonlinear_arith)
                requires
                    ni == ci * si,
                    0 <= ci * si <= ci * hi,
                    hi > 0,
            ;
        } else {
            assert(ci * hi <= ci * si <= 0) by (nonlinear_arith)
                requires
                    ci < 0,
                    0 <= si <= hi,
            ;
            assert(0 <= (-ni) / hi <= -ci) by (nonlinear_arith)
                requires
                    ni == ci * si,
                    ci * hi <= ci * si <= 0,
                    hi > 0,
            ;
        }
        if si == hi {
            if ci >= 0 {
                assert(ni / hi == ci) by (nonlinear_arith)
                    requires
                        ni == ci * hi,
                        hi > 0,
                ;
            } else {
                assert((-ni) / hi == -ci) by (nonlinear_arith)
                    requires
                        ni == ci * hi,
                        hi > 0,
                ;
            }
        }
    }
    Money::from_raw(q as i64)
}

impl Position {
    pub closed spec fn sym(self) -> Seq<char> {
        self.symbol@
    }

    pub closed spec fn held(self) -> int {
        self.qty@
    }

    pub closed spec fn basis(self) -> int {
        self.cost@
    }

    /// A position as its fields: the model the portfolio reasons over.
    pub closed spec fn of(symbol: Symbol, qty: Qty, cost: Money) -> Position {
        Position { symbol, qty, cost }
    }

    pub broadcast proof fn lemma_of(symbol: Symbol, qty: Qty, cost: Money)
        ensures
            #![trigger Position::of(symbol, qty, cost)]
            Position::of(symbol, qty, cost).sym() == symbol@,
            Position::of(symbol, qty, cost).held() == qty@,
            Position::of(symbol, qty, cost).basis() == cost@,
            Position::of(symbol, qty, cost).symbol_value() == symbol,
    {
    }

    /// A position's spelling is its symbol's.
    pub broadcast proof fn lemma_sym(p: Position)
        ensures
            #[trigger] p.sym() == p.symbol_value()@,
    {
    }

    /// Positions agree when symbol, quantity and basis agree.
    pub proof fn lemma_ext(a: Position, b: Position)
        requires
            a.symbol_value() == b.symbol_value(),
            a.held() == b.held(),
            a.basis() == b.basis(),
        ensures
            a == b,
    {
        Money::lemma_view_injective(a.cost, b.cost);
        Qty::lemma_view_injective(a.qty, b.qty);
    }

    /// The symbol value itself (not only its spelling).
    pub closed spec fn symbol_value(self) -> Symbol {
        self.symbol
    }

    pub fn flat(symbol: Symbol) -> (p: Position)
        ensures
            p.sym() == symbol@,
            p.symbol_value() == symbol,
            p.held() == 0,
            p.basis() == 0,
    {
        Position { symbol, qty: Qty::zero(), cost: Money::zero() }
    }

    pub fn symbol(&self) -> (s: &Symbol)
        ensures
            s@ == self.sym(),
            *s == self.symbol_value(),
    {
        &self.symbol
    }

    pub fn qty(&self) -> (q: Qty)
        ensures
            q@ == self.held(),
            q@ >= 0,
    {
        let _ = self.qty.get();
        self.qty
    }

    /// Total basis of the held quantity, fees included.
    pub fn cost(&self) -> (m: Money)
        ensures
            m@ == self.basis(),
    {
        self.cost
    }

    pub fn is_flat(&self) -> (b: bool)
        ensures
            b == (self.held() == 0),
    {
        self.qty.is_zero()
    }

    /// Average cost per share — derived for display, never stored. `None`
    /// when flat, and when the basis per share is not a positive price.
    pub fn avg_cost(&self) -> (r: Option<Px>)
        ensures
            self.held() == 0 ==> r is None,
            self.held() != 0 ==> match r {
                Some(p) => self.basis() > 0 && p@ == self.basis() / self.held() && p@ > 0,
                None => self.basis() <= 0 || self.basis() / self.held() == 0,
            },
    {
        if self.qty.is_zero() {
            return None;
        }
        let c = self.cost.raw();
        let q = self.qty.get();
        if c <= 0 {
            return None;
        }
        match Px::from_raw(c / q) {
            Ok(p) => Some(p),
            Err(_) => None,
        }
    }

    /// Buy: cash out is the caller's business, the basis is ours. Returns the
    /// outlay (notional plus fee). The quantity is added before the basis: a
    /// basis that overflows leaves the quantity already advanced.
    pub fn buy(&mut self, qty: Qty, px: Px, fee: Money) -> (r: Result<Money, PositionError>)
        ensures
            final(self).symbol_value() == old(self).symbol_value(),
            match buy_outcome(old(self).held(), old(self).basis(), qty@, px@, fee@) {
                Ok((outlay, nq, nc)) => r matches Ok(o) && o@ == outlay && final(self).held() == nq
                    && final(self).basis() == nc,
                Err(e) => r == Err::<Money, PositionError>(PositionError::Domain(e))
                    && final(self).basis() == old(self).basis() && final(self).held()
                    == held_after_refused_buy(old(self).held(), qty@, px@, fee@),
            },
    {
        let _ = self.qty.get();
        let _ = qty.get();
        let notional = match px.notional(qty) {
            Ok(n) => n,
            Err(e) => {
                return Err(PositionError::Domain(e));
            },
        };
        let outlay = match notional.checked_add(fee) {
            Ok(o) => o,
            Err(e) => {
                return Err(PositionError::Domain(e));
            },
        };
        self.qty = match self.qty.checked_add(qty) {
            Ok(q) => q,
            Err(e) => {
                return Err(PositionError::Domain(e));
            },
        };
        self.cost = match self.cost.checked_add(outlay) {
            Ok(c) => c,
            Err(e) => {
                return Err(PositionError::Domain(e));
            },
        };
        Ok(outlay)
    }

    /// Sell, realizing against the running basis at the moment of the sell.
    /// Selling more than is held is refused and nothing moves.
    pub fn sell(&mut self, qty: Qty, px: Px, fee: Money) -> (r: Result<Realized, PositionError>)
        requires
            old(self).held() > 0 || qty@ > 0,
        ensures
            qty@ > old(self).held() ==> r == Err::<Realized, PositionError>(
                PositionError::InsufficientPosition {
                    symbol: old(self).symbol_value(),
                    held: old(self).held() as i64,
                    sell: qty@ as i64,
                },
            ) && *final(self) == *old(self),
            qty@ <= old(self).held() ==> match sell_outcome(
                old(self).held(),
                old(self).basis(),
                qty@,
                px@,
                fee@,
            ) {
                Ok((pnl, net, nq, nc)) => r matches Ok(z) && z.pnl@ == pnl && z.proceeds_net@
                    == net && final(self).held() == nq && final(self).basis() == nc && final(self).symbol_value() == old(self).symbol_value(),
                Err(e) => r == Err::<Realized, PositionError>(PositionError::Domain(e))
                    && *final(self) == *old(self),
            },
            r is Ok && final(self).held() == 0 ==> final(self).basis() == 0,
    {
        let held = self.qty.get();
        let sold = qty.get();
        if sold > held {
            return Err(
                PositionError::InsufficientPosition {
                    symbol: self.symbol.clone(),
                    held,
                    sell: sold,
                },
            );
        }
        let removed = cost_removed(self.cost, qty, self.qty);
        let proceeds = match px.notional(qty) {
            Ok(p) => p,
            Err(e) => {
                return Err(PositionError::Domain(e));
            },
        };
        let proceeds_net = match proceeds.checked_sub(fee) {
            Ok(p) => p,
            Err(e) => {
                return Err(PositionError::Domain(e));
            },
        };
        let gross = match proceeds.checked_sub(removed) {
            Ok(g) => g,
            Err(e) => {
                return Err(PositionError::Domain(e));
            },
        };
        let pnl = match gross.checked_sub(fee) {
            Ok(p) => p,
            Err(e) => {
                return Err(PositionError::Domain(e));
            },
        };
        let new_qty = match self.qty.checked_sub(qty) {
            Ok(q) => q,
            Err(e) => {
                return Err(PositionError::Domain(e));
            },
        };
        let new_cost = match self.cost.checked_sub(removed) {
            Ok(c) => c,
            Err(e) => {
                return Err(PositionError::Domain(e));
            },
        };
        self.qty = new_qty;
        self.cost = new_cost;
        Ok(Realized { pnl, proceeds_net })
    }

    /// Market value at a mark: `qty × mark`.
    pub fn market_value(&self, mark: Px) -> (r: Result<Money, PositionError>)
        ensures
            money_range(mark@ * self.held()) ==> (r matches Ok(v) && v@ == mark@ * self.held()),
            !money_range(mark@ * self.held()) ==> r == Err::<Money, PositionError>(
                PositionError::Domain(DomainError::Overflow("notional")),
            ),
    {
        match mark.notional(self.qty) {
            Ok(v) => Ok(v),
            Err(e) => Err(PositionError::Domain(e)),
        }
    }

    /// Unrealized P&L: `qty × mark − cost`. Not `qty × (mark − avg)`: they are
    /// algebraically identical, but the second needs a division.
    pub fn unrealized(&self, mark: Px) -> (r: Result<Money, PositionError>)
        ensures
            !money_range(mark@ * self.held()) ==> r == Err::<Money, PositionError>(
                PositionError::Domain(DomainError::Overflow("notional")),
            ),
            money_range(mark@ * self.held()) && money_range(mark@ * self.held() - self.basis())
                ==> (r matches Ok(v) && v@ == mark@ * self.held() - self.basis()),
            money_range(mark@ * self.held()) && !money_range(mark@ * self.held() - self.basis())
                ==> r == Err::<Money, PositionError>(
                PositionError::Domain(DomainError::Overflow("cash subtraction")),
            ),
    {
        let mv = self.market_value(mark)?;
        match mv.checked_sub(self.cost) {
            Ok(v) => Ok(v),
            Err(e) => Err(PositionError::Domain(e)),
        }
    }
}

} // verus!
