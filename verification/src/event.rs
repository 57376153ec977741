//! Facts, in the order they happened.
//!
//! The event log is the system of record: participants, orders, positions,
//! cash and P&L are all folds over it. Two consequences shape what an event
//! carries.
//!
//! Events carry the broker's output, not the instruction to ask it: an
//! acknowledgement records the broker id that was minted, a fill the terms
//! that were chosen. Replay therefore never consults the broker.
//!
//! Events carry submission terms, not order state: an order is always `NEW`
//! when submitted, and its lifecycle is derived by folding the later events.
use vstd::prelude::*;

use crate::ids::{BrokerOrderId, ClientOrderId, ExecutionId, ParticipantId, Symbol};
use crate::instrument::InstrumentSpec;
use crate::lifecycle::RejectReason;
use crate::money::{Money, Px, Qty};
use crate::order::NewOrder;
use crate::scoring::DayInput;
use crate::time::{Timestamp, TradingDay};

verus! {

#[derive(Debug, PartialEq, Eq)]
pub enum Event {
    ParticipantCreated { participant: ParticipantId, starting_cash: Money },
    OrderSubmitted { order: NewOrder },
    OrderAcknowledged { id: ClientOrderId, broker_id: BrokerOrderId },
    OrderRejected { id: ClientOrderId, reason: RejectReason },
    /// An execution, with the venue's id for it.
    OrderFilled { id: ClientOrderId, exec_id: ExecutionId, qty: Qty, px: Px, fee: Money },
    OrderCancelled { id: ClientOrderId },
    /// The original is cancelled and the replacement submitted, as one fact —
    /// so a reader cannot see half of a cancel-replace.
    OrderReplaced { original: ClientOrderId, replacement: NewOrder },
    MarkUpdated { symbol: Symbol, px: Px },
    InstrumentUpserted { spec: InstrumentSpec },
    InstrumentRemoved { symbol: Symbol },
    /// A day's closing facts, per participant. The facts are stored, not the
    /// computed leaderboard: the ranking is recomputed from them on demand,
    /// so a stored board can never drift from the facts it was built on.
    DayClosed { day: TradingDay, entries: Vec<DayInput> },
}

/// An event with its position in the log: `seq` is the total order the
/// single-writer loop guarantees, `at` the caller's timestamp.
#[derive(Debug, PartialEq, Eq)]
pub struct Journaled {
    pub seq: u64,
    pub at: Timestamp,
    pub event: Event,
}

/// Two events that say the same thing (a day's entries compared by their
/// contents).
pub open spec fn same_event(a: Event, b: Event) -> bool {
    match (a, b) {
        (Event::DayClosed { day: d1, entries: e1 }, Event::DayClosed { day: d2, entries: e2 }) => d1
            == d2 && e1@ == e2@,
        _ => a == b,
    }
}

pub open spec fn same_entry(a: Journaled, b: Journaled) -> bool {
    a.seq == b.seq && a.at == b.at && same_event(a.event, b.event)
}

/// Clone a day's entries.
pub fn clone_entries(v: &Vec<DayInput>) -> (r: Vec<DayInput>)
    ensures
        r@ == v@,
{
    let mut out: Vec<DayInput> = Vec::new();
    let mut i: usize = 0;
    while i < v.len()
        invariant
            i <= v@.len(),
            out@ == v@.take(i as int),
        decreases v@.len() - i,
    {
        out.push(v[i].clone());
        i = i + 1;
        assert(out@ =~= v@.take(i as int));
    }
    assert(v@.take(i as int) =~= v@);
    out
}

impl Clone for Event {
    fn clone(&self) -> (r: Self)
        ensures
            same_event(r, *self),
    {
        match self {
            Event::ParticipantCreated { participant, starting_cash } => Event::ParticipantCreated {
                participant: participant.clone(),
                starting_cash: *starting_cash,
            },
            Event::OrderSubmitted { order } => Event::OrderSubmitted { order: order.clone() },
            Event::OrderAcknowledged { id, broker_id } => Event::OrderAcknowledged {
                id: *id,
                broker_id: *broker_id,
            },
            Event::OrderRejected { id, reason } => Event::OrderRejected { id: *id, reason: *reason },
            Event::OrderFilled { id, exec_id, qty, px, fee } => Event::OrderFilled {
                id: *id,
                exec_id: *exec_id,
                qty: *qty,
                px: *px,
                fee: *fee,
            },
            Event::OrderCancelled { id } => Event::OrderCancelled { id: *id },
            Event::OrderReplaced { original, replacement } => Event::OrderReplaced {
                original: *original,
                replacement: replacement.clone(),
            },
            Event::MarkUpdated { symbol, px } => Event::MarkUpdated { symbol: symbol.clone(), px: *px },
            Event::InstrumentUpserted { spec } => Event::InstrumentUpserted { spec: spec.clone() },
            Event::InstrumentRemoved { symbol } => Event::InstrumentRemoved {
                symbol: symbol.clone(),
            },
            Event::DayClosed { day, entries } => Event::DayClosed {
                day: *day,
                entries: clone_entries(entries),
            },
        }
    }
}

impl Clone for Journaled {
    fn clone(&self) -> (r: Self)
        ensures
            same_entry(r, *self),
    {
        Journaled { seq: self.seq, at: self.at, event: self.event.clone() }
    }
}

pub open spec fn kind_of(e: Event) -> &'static str {
    match e {
        Event::ParticipantCreated { .. } => "participant_created",
        Event::OrderSubmitted { .. } => "order_submitted",
        Event::OrderAcknowledged { .. } => "order_acknowledged",
        Event::OrderRejected { .. } => "order_rejected",
        Event::OrderFilled { .. } => "order_filled",
        Event::OrderCancelled { .. } => "order_cancelled",
        Event::OrderReplaced { .. } => "order_replaced",
        Event::MarkUpdated { .. } => "mark_updated",
        Event::InstrumentUpserted { .. } => "instrument_upserted",
        Event::InstrumentRemoved { .. } => "instrument_removed",
        Event::DayClosed { .. } => "day_closed",
    }
}

impl Event {
    /// Short stable tag, for logs and for a store's `kind` column.
    pub fn kind(&self) -> (k: &'static str)
        ensures
            k == kind_of(*self),
    {
        match self {
            Event::ParticipantCreated { .. } => "participant_created",
            Event::OrderSubmitted { .. } => "order_submitted",
            Event::OrderAcknowledged { .. } => "order_acknowledged",
            Event::OrderRejected { .. } => "order_rejected",
            Event::OrderFilled { .. } => "order_filled",
            Event::OrderCancelled { .. } => "order_cancelled",
            Event::OrderReplaced { .. } => "order_replaced",
            Event::MarkUpdated { .. } => "mark_updated",
            Event::InstrumentUpserted { .. } => "instrument_upserted",
            Event::InstrumentRemoved { .. } => "instrument_removed",
            Event::DayClosed { .. } => "day_closed",
        }
    }
}

} // verus!
