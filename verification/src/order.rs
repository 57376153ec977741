//! The order itself: what was asked for, and where it has got to. The state
//! machine lives in `lifecycle`; this is the record it advances.
use vstd::prelude::*;

use crate::error::DomainError;
use crate::ids::{ClientOrderId, ParticipantId, Symbol};
use crate::lifecycle::{self, filled_of, transition, OrderEvent, OrderState, TransitionError};
use crate::money::{Px, Qty};
use crate::time::Timestamp;

verus! {

broadcast use crate::money::group_money;

/// Long-only, so `Sell` may only reduce an existing position — enforced by the
/// portfolio, the only thing that knows what is held.
#[derive(Debug, Clone, Copy, PartialEq, Eq, Structural)]
pub enum Side {
    Buy,
    Sell,
}

/// A submission request, before it becomes an [`Order`].
#[derive(Debug, PartialEq, Eq)]
pub struct NewOrder {
    pub id: ClientOrderId,
    pub participant: ParticipantId,
    pub symbol: Symbol,
    pub side: Side,
    pub qty: Qty,
    pub limit_px: Px,
    pub at: Timestamp,
}

#[derive(Debug, PartialEq, Eq)]
pub struct Order {
    pub id: ClientOrderId,
    pub participant: ParticipantId,
    pub symbol: Symbol,
    pub side: Side,
    /// The quantity asked for. Never changes — a modification produces a new
    /// order (see [`Order::replace`]).
    pub qty: Qty,
    pub limit_px: Px,
    pub state: OrderState,
    /// Set when this order came from replacing another. FIX `OrigClOrdID`.
    pub replaces: Option<ClientOrderId>,
    pub submitted_at: Timestamp,
}

/// The result of a cancel-replace: both sides, so a caller cannot record one
/// without the other.
#[derive(Debug, PartialEq, Eq)]
pub struct Replacement {
    pub original: Order,
    pub replacement: Order,
}

impl Clone for NewOrder {
    fn clone(&self) -> (r: Self)
        ensures
            r == *self,
    {
        NewOrder {
            id: self.id,
            participant: self.participant.clone(),
            symbol: self.symbol.clone(),
            side: self.side,
            qty: self.qty,
            limit_px: self.limit_px,
            at: self.at,
        }
    }
}

impl Clone for Order {
    fn clone(&self) -> (r: Self)
        ensures
            r == *self,
    {
        Order {
            id: self.id,
            participant: self.participant.clone(),
            symbol: self.symbol.clone(),
            side: self.side,
            qty: self.qty,
            limit_px: self.limit_px,
            state: self.state,
            replaces: self.replaces,
            submitted_at: self.submitted_at,
        }
    }
}

/// The order a submission opens: the terms as asked, `NEW`, unlinked.
pub open spec fn submitted(req: NewOrder) -> Order {
    Order {
        id: req.id,
        participant: req.participant,
        symbol: req.symbol,
        side: req.side,
        qty: req.qty,
        limit_px: req.limit_px,
        state: OrderState::New,
        replaces: None,
        submitted_at: req.at,
    }
}

/// The submission terms an order was opened with.
pub open spec fn terms_of(o: Order) -> NewOrder {
    NewOrder {
        id: o.id,
        participant: o.participant,
        symbol: o.symbol,
        side: o.side,
        qty: o.qty,
        limit_px: o.limit_px,
        at: o.submitted_at,
    }
}

impl Order {
    /// Submit an order. Zero quantity is rejected here rather than in `Qty`:
    /// zero is a legitimate quantity elsewhere, but an order for nothing is
    /// meaningless.
    pub fn submit(req: NewOrder) -> (r: Result<Order, DomainError>)
        ensures
            req.qty@ == 0 ==> r == Err::<Order, DomainError>(DomainError::NonPositiveQty(0)),
            req.qty@ != 0 ==> r == Ok::<Order, DomainError>(submitted(req)),
    {
        if req.qty.is_zero() {
            return Err(DomainError::NonPositiveQty(0));
        }
        Ok(
            Order {
                id: req.id,
                participant: req.participant,
                symbol: req.symbol,
                side: req.side,
                qty: req.qty,
                limit_px: req.limit_px,
                state: OrderState::New,
                replaces: None,
                submitted_at: req.at,
            },
        )
    }

    /// The submission terms this order was opened with.
    pub fn terms(&self) -> (r: NewOrder)
        ensures
            r == terms_of(*self),
    {
        NewOrder {
            id: self.id,
            participant: self.participant.clone(),
            symbol: self.symbol.clone(),
            side: self.side,
            qty: self.qty,
            limit_px: self.limit_px,
            at: self.submitted_at,
        }
    }

    /// Advance the order by one event. A refused event leaves it unchanged.
    pub fn apply(&mut self, event: &OrderEvent) -> (r: Result<(), TransitionError>)
        ensures
            match transition(old(self).state, old(self).qty@, *event) {
                Ok(s) => r is Ok && *final(self) == Order { state: s, ..*old(self) },
                Err(e) => r == Err::<(), TransitionError>(e) && *final(self) == *old(self),
            },
    {
        let next = lifecycle::apply(&self.state, self.qty, event)?;
        self.state = next;
        Ok(())
    }

    /// What is still to be executed: ordered less filled.
    pub fn remaining(&self) -> (r: Result<Qty, DomainError>)
        ensures
            self.qty@ >= filled_of(self.state) ==> r is Ok && r->Ok_0@ == self.qty@ - filled_of(
                self.state,
            ),
            self.qty@ < filled_of(self.state) ==> r == Err::<Qty, DomainError>(
                DomainError::NegativeQty((self.qty@ - filled_of(self.state)) as i64),
            ),
    {
        let filled = self.state.filled();
        let _ = filled.get();
        let _ = self.qty.get();
        self.qty.checked_sub(filled)
    }

    /// Cancel-replace, not in-place mutation. The original is cancelled —
    /// keeping whatever it already filled — and a new order is minted pointing
    /// back at it. A replace can lose the race: a filled order is terminal and
    /// the replace fails naming that state.
    pub fn replace(&self, id: ClientOrderId, qty: Qty, limit_px: Px, at: Timestamp) -> (r:
        Result<Replacement, TransitionError>)
        ensures
            match transition(self.state, self.qty@, OrderEvent::Cancelled) {
                Err(e) => r == Err::<Replacement, TransitionError>(e),
                Ok(cancelled) => if qty@ == 0 {
                    r == Err::<Replacement, TransitionError>(
                        TransitionError::Domain(DomainError::NonPositiveQty(0)),
                    )
                } else {
                    r == Ok::<Replacement, TransitionError>(
                        Replacement {
                            original: Order { state: cancelled, ..*self },
                            replacement: Order {
                                replaces: Some(self.id),
                                ..submitted(
                                    NewOrder {
                                        id,
                                        participant: self.participant,
                                        symbol: self.symbol,
                                        side: self.side,
                                        qty,
                                        limit_px,
                                        at,
                                    },
                                )
                            },
                        },
                    )
                },
            },
    {
        let cancelled = lifecycle::apply(&self.state, self.qty, &OrderEvent::Cancelled)?;
        let fresh = match Order::submit(
            NewOrder {
                id,
                participant: self.participant.clone(),
                symbol: self.symbol.clone(),
                side: self.side,
                qty,
                limit_px,
                at,
            },
        ) {
            Ok(o) => o,
            Err(e) => {
                return Err(TransitionError::Domain(e));
            },
        };
        let mut original = self.clone();
        original.state = cancelled;
        let mut replacement = fresh;
        replacement.replaces = Some(self.id);
        Ok(Replacement { original, replacement })
    }
}

} // verus!
