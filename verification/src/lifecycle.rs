//! The order state machine.
//!
//! Six states: new, acknowledged, partially filled, filled, cancelled and
//! rejected. Transitions are a total function
//! over `(state, event)`. Each state carries exactly its own data, and fills
//! accumulate `filled` and `cost` — never an average price, which would drift.
use vstd::prelude::*;

use crate::error::DomainError;
use crate::ids::BrokerOrderId;
use crate::money::{money_range, Money, Px, Qty};

verus! {

broadcast use crate::money::group_money;

/// Why an order was refused: by the venue's reference data or by the book.
#[derive(Debug, Clone, Copy, PartialEq, Eq, Structural)]
pub enum RejectReason {
    UnknownSymbol,
    InsufficientCash,
    InsufficientPosition,
    ExceedsSizeLimit,
    /// The limit price is not on the instrument's tick grid.
    PriceOffTick,
    /// The quantity is not a whole number of lots.
    QtyOffLot,
}

/// The six states an order moves through.
#[derive(Debug, Clone, Copy, PartialEq, Eq, Structural)]
pub enum OrderState {
    /// Submitted; the broker has not acked yet. Cancellable.
    New,
    Acknowledged { broker_id: BrokerOrderId },
    PartiallyFilled { broker_id: BrokerOrderId, filled: Qty, cost: Money },
    /// Terminal.
    Filled { filled: Qty, cost: Money },
    /// Terminal. `filled` may be non-zero: cancelling keeps the fills.
    Cancelled { filled: Qty, cost: Money },
    /// Terminal.
    Rejected { reason: RejectReason },
}

/// A fact that has already happened to an order. `Fill` is one execution
/// report; `Filled` is the state reached when the last one lands.
#[derive(Debug, Clone, Copy, PartialEq, Eq, Structural)]
pub enum OrderEvent {
    Acknowledged { broker_id: BrokerOrderId },
    Rejected { reason: RejectReason },
    Fill { qty: Qty, px: Px },
    Cancelled,
}

#[derive(Debug, Clone, PartialEq, Eq)]
pub enum TransitionError {
    Illegal { state: &'static str, event: &'static str },
    Overfill { fill: i64, total: i64, ordered: i64 },
    EmptyFill,
    Domain(DomainError),
}

pub open spec fn state_name(s: OrderState) -> &'static str {
    match s {
        OrderState::New => "NEW",
        OrderState::Acknowledged { .. } => "ACKNOWLEDGED",
        OrderState::PartiallyFilled { .. } => "PARTIALLY_FILLED",
        OrderState::Filled { .. } => "FILLED",
        OrderState::Cancelled { .. } => "CANCELLED",
        OrderState::Rejected { .. } => "REJECTED",
    }
}

pub open spec fn event_name(e: OrderEvent) -> &'static str {
    match e {
        OrderEvent::Acknowledged { .. } => "an acknowledgement",
        OrderEvent::Rejected { .. } => "a rejection",
        OrderEvent::Fill { .. } => "a fill",
        OrderEvent::Cancelled => "a cancellation",
    }
}

pub open spec fn is_terminal_state(s: OrderState) -> bool {
    s is Filled || s is Cancelled || s is Rejected
}

/// Quantity executed so far, in any state.
pub open spec fn filled_of(s: OrderState) -> int {
    match s {
        OrderState::PartiallyFilled { filled, .. } => filled@,
        OrderState::Filled { filled, .. } => filled@,
        OrderState::Cancelled { filled, .. } => filled@,
        _ => 0,
    }
}

/// Gross notional executed so far, fees excluded.
pub open spec fn cost_of(s: OrderState) -> int {
    match s {
        OrderState::PartiallyFilled { cost, .. } => cost@,
        OrderState::Filled { cost, .. } => cost@,
        OrderState::Cancelled { cost, .. } => cost@,
        _ => 0,
    }
}

pub open spec fn broker_id_of(s: OrderState) -> Option<BrokerOrderId> {
    match s {
        OrderState::Acknowledged { broker_id } => Some(broker_id),
        OrderState::PartiallyFilled { broker_id, .. } => Some(broker_id),
        _ => None,
    }
}

pub open spec fn illegal(s: OrderState, e: OrderEvent) -> TransitionError {
    TransitionError::Illegal { state: state_name(s), event: event_name(e) }
}

/// One execution against an order that has `filled` of `ordered` at `cost`.
pub open spec fn fill_outcome(
    broker_id: BrokerOrderId,
    filled: int,
    cost: int,
    ordered: int,
    qty: int,
    px: int,
) -> Result<OrderState, TransitionError> {
    let total = filled + qty;
    if qty == 0 {
        Err(TransitionError::EmptyFill)
    } else if total > i64::MAX {
        Err(TransitionError::Domain(DomainError::Overflow("quantity addition")))
    } else if total > ordered {
        Err(TransitionError::Overfill { fill: qty as i64, total: total as i64, ordered: ordered as i64 })
    } else if !money_range(px * qty) {
        Err(TransitionError::Domain(DomainError::Overflow("notional")))
    } else if !money_range(cost + px * qty) {
        Err(TransitionError::Domain(DomainError::Overflow("cash addition")))
    } else if total == ordered {
        Ok(OrderState::Filled { filled: Qty::from_spec(total), cost: Money::from_spec(cost + px * qty) })
    } else {
        Ok(
            OrderState::PartiallyFilled {
                broker_id,
                filled: Qty::from_spec(total),
                cost: Money::from_spec(cost + px * qty),
            },
        )
    }
}

/// The transition table: what one event does to one state of an order for
/// `ordered` shares.
pub open spec fn transition(s: OrderState, ordered: int, e: OrderEvent) -> Result<
    OrderState,
    TransitionError,
> {
    match s {
        OrderState::New => match e {
            OrderEvent::Acknowledged { broker_id } => Ok(OrderState::Acknowledged { broker_id }),
            OrderEvent::Rejected { reason } => Ok(OrderState::Rejected { reason }),
            OrderEvent::Cancelled => Ok(
                OrderState::Cancelled { filled: Qty::from_spec(0), cost: Money::from_spec(0) },
            ),
            OrderEvent::Fill { .. } => Err(illegal(s, e)),
        },
        OrderState::Acknowledged { broker_id } => match e {
            OrderEvent::Fill { qty, px } => fill_outcome(broker_id, 0, 0, ordered, qty@, px@),
            OrderEvent::Cancelled => Ok(
                OrderState::Cancelled { filled: Qty::from_spec(0), cost: Money::from_spec(0) },
            ),
            _ => Err(illegal(s, e)),
        },
        OrderState::PartiallyFilled { broker_id, filled, cost } => match e {
            OrderEvent::Fill { qty, px } => fill_outcome(
                broker_id,
                filled@,
                cost@,
                ordered,
                qty@,
                px@,
            ),
            OrderEvent::Cancelled => Ok(OrderState::Cancelled { filled, cost }),
            _ => Err(illegal(s, e)),
        },
        _ => Err(illegal(s, e)),
    }
}

impl OrderState {
    pub fn name(&self) -> (n: &'static str)
        ensures
            n == state_name(*self),
    {
        match self {
            OrderState::New => "NEW",
            OrderState::Acknowledged { .. } => "ACKNOWLEDGED",
            OrderState::PartiallyFilled { .. } => "PARTIALLY_FILLED",
            OrderState::Filled { .. } => "FILLED",
            OrderState::Cancelled { .. } => "CANCELLED",
            OrderState::Rejected { .. } => "REJECTED",
        }
    }

    /// Terminal states accept no further events.
    pub fn is_terminal(&self) -> (b: bool)
        ensures
            b == is_terminal_state(*self),
    {
        match self {
            OrderState::Filled { .. } | OrderState::Cancelled { .. } | OrderState::Rejected {
                ..
            } => true,
            _ => false,
        }
    }

    pub fn filled(&self) -> (q: Qty)
        ensures
            q@ == filled_of(*self),
    {
        match self {
            OrderState::PartiallyFilled { filled, .. } => *filled,
            OrderState::Filled { filled, .. } => *filled,
            OrderState::Cancelled { filled, .. } => *filled,
            _ => Qty::zero(),
        }
    }

    pub fn cost(&self) -> (m: Money)
        ensures
            m@ == cost_of(*self),
    {
        match self {
            OrderState::PartiallyFilled { cost, .. } => *cost,
            OrderState::Filled { cost, .. } => *cost,
            OrderState::Cancelled { cost, .. } => *cost,
            _ => Money::zero(),
        }
    }

    pub fn broker_id(&self) -> (b: Option<BrokerOrderId>)
        ensures
            b == broker_id_of(*self),
    {
        match self {
            OrderState::Acknowledged { broker_id } => Some(*broker_id),
            OrderState::PartiallyFilled { broker_id, .. } => Some(*broker_id),
            _ => None,
        }
    }
}

impl OrderEvent {
    pub fn name(&self) -> (n: &'static str)
        ensures
            n == event_name(*self),
    {
        match self {
            OrderEvent::Acknowledged { .. } => "an acknowledgement",
            OrderEvent::Rejected { .. } => "a rejection",
            OrderEvent::Fill { .. } => "a fill",
            OrderEvent::Cancelled => "a cancellation",
        }
    }
}

fn fill(broker_id: BrokerOrderId, filled: Qty, cost: Money, ordered: Qty, qty: Qty, px: Px) -> (r:
    Result<OrderState, TransitionError>)
    ensures
        r == fill_outcome(broker_id, filled@, cost@, ordered@, qty@, px@),
{
    let _ = filled.get();
    let _ = qty.get();
    let _ = ordered.get();
    if qty.is_zero() {
        return Err(TransitionError::EmptyFill);
    }
    let total = match filled.checked_add(qty) {
        Ok(t) => t,
        Err(e) => {
            return Err(TransitionError::Domain(e));
        },
    };
    if total.get() > ordered.get() {
        return Err(
            TransitionError::Overfill { fill: qty.get(), total: total.get(), ordered: ordered.get() },
        );
    }
    let notional = match px.notional(qty) {
        Ok(n) => n,
        Err(e) => {
            return Err(TransitionError::Domain(e));
        },
    };
    let cost = match cost.checked_add(notional) {
        Ok(c) => c,
        Err(e) => {
            return Err(TransitionError::Domain(e));
        },
    };
    if total.get() == ordered.get() {
        Ok(OrderState::Filled { filled: total, cost })
    } else {
        Ok(OrderState::PartiallyFilled { broker_id, filled: total, cost })
    }
}

/// Apply one event to one state of an order for `ordered` shares.
pub fn apply(state: &OrderState, ordered: Qty, event: &OrderEvent) -> (r: Result<
    OrderState,
    TransitionError,
>)
    ensures
        r == transition(*state, ordered@, *event),
{
    match state {
        OrderState::Filled { .. } | OrderState::Cancelled { .. } | OrderState::Rejected {
            ..
        } => Err(TransitionError::Illegal { state: state.name(), event: event.name() }),
        OrderState::New => match event {
            OrderEvent::Acknowledged { broker_id } => Ok(
                OrderState::Acknowledged { broker_id: *broker_id },
            ),
            OrderEvent::Rejected { reason } => Ok(OrderState::Rejected { reason: *reason }),
            OrderEvent::Cancelled => Ok(
                OrderState::Cancelled { filled: Qty::zero(), cost: Money::zero() },
            ),
            // A fill before the ack: report the contradiction rather than book it.
            OrderEvent::Fill { .. } => Err(
                TransitionError::Illegal { state: state.name(), event: event.name() },
            ),
        },
        OrderState::Acknowledged { broker_id } => match event {
            OrderEvent::Fill { qty, px } => fill(
                *broker_id,
                Qty::zero(),
                Money::zero(),
                ordered,
                *qty,
                *px,
            ),
            OrderEvent::Cancelled => Ok(
                OrderState::Cancelled { filled: Qty::zero(), cost: Money::zero() },
            ),
            OrderEvent::Acknowledged { .. } | OrderEvent::Rejected { .. } => Err(
                TransitionError::Illegal { state: state.name(), event: event.name() },
            ),
        },
        OrderState::PartiallyFilled { broker_id, filled, cost } => match event {
            OrderEvent::Fill { qty, px } => fill(*broker_id, *filled, *cost, ordered, *qty, *px),
            // The fills survive the cancel: it withdraws the residual only.
            OrderEvent::Cancelled => Ok(OrderState::Cancelled { filled: *filled, cost: *cost }),
            OrderEvent::Acknowledged { .. } | OrderEvent::Rejected { .. } => Err(
                TransitionError::Illegal { state: state.name(), event: event.name() },
            ),
        },
    }
}

// ---- laws -------------------------------------------------------------------

/// A terminal order accepts nothing: every event on a filled, cancelled or
/// rejected order is an illegal transition naming the state and the event.
pub proof fn law_terminal_states_absorb(s: OrderState, ordered: int, e: OrderEvent)
    requires
        is_terminal_state(s),
    ensures
        transition(s, ordered, e) == Err::<OrderState, TransitionError>(illegal(s, e)),
{
}

/// A fill that is accepted adds exactly its quantity to `filled` and exactly
/// its notional to `cost`, never takes `filled` past the order, and closes the
/// order precisely when the order is complete.
pub proof fn law_fill_accumulates_exactly(s: OrderState, ordered: int, qty: Qty, px: Px)
    requires
        0 <= filled_of(s),
        0 <= qty@,
        ordered <= i64::MAX,
        transition(s, ordered, OrderEvent::Fill { qty, px }) is Ok,
    ensures
        ({
            let n = transition(s, ordered, OrderEvent::Fill { qty, px })->Ok_0;
            &&& filled_of(n) == filled_of(s) + qty@
            &&& cost_of(n) == cost_of(s) + px@ * qty@
            &&& filled_of(n) <= ordered
            &&& qty@ > 0
            &&& (n is Filled <==> filled_of(n) == ordered)
            &&& (n is Filled || n is PartiallyFilled)
        }),
{
    broadcast use crate::money::group_money;

}

/// Cancelling keeps what already executed: the cancelled order reports the
/// same filled quantity and cost as before the cancel.
pub proof fn law_cancel_keeps_fills(s: OrderState, ordered: int)
    requires
        transition(s, ordered, OrderEvent::Cancelled) is Ok,
    ensures
        ({
            let n = transition(s, ordered, OrderEvent::Cancelled)->Ok_0;
            &&& n is Cancelled
            &&& filled_of(n) == filled_of(s)
            &&& cost_of(n) == cost_of(s)
        }),
{
    broadcast use crate::money::group_money;

}

/// No transition ever takes an order's filled quantity past what was ordered,
/// or backwards.
pub proof fn law_filled_stays_within_order(s: OrderState, ordered: int, e: OrderEvent)
    requires
        0 <= filled_of(s) <= ordered <= i64::MAX,
        e matches OrderEvent::Fill { qty, .. } ==> qty@ >= 0,
        transition(s, ordered, e) is Ok,
    ensures
        filled_of(s) <= filled_of(transition(s, ordered, e)->Ok_0) <= ordered,
{
    broadcast use crate::money::group_money;

}

} // verus!
