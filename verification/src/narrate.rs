//! The journal, narrated: every event as a sentence, so what happens is
//! watchable by a person. This is not a second log; it is the log, read back
//! with words on.
use vstd::prelude::*;

use crate::broker::Broker;
use crate::engine::{order_for, Engine};
use crate::event::Event;
use crate::lifecycle::RejectReason;
use crate::money::{int_text, render_fixed};
use crate::order::{Order, Side};
use crate::text::{chars_of, nat_digits, push_decimal, string_of};
use crate::time::iso_text;

verus! {

pub open spec fn reject_name(r: RejectReason) -> Seq<char> {
    match r {
        RejectReason::UnknownSymbol => "UnknownSymbol"@,
        RejectReason::InsufficientCash => "InsufficientCash"@,
        RejectReason::InsufficientPosition => "InsufficientPosition"@,
        RejectReason::ExceedsSizeLimit => "ExceedsSizeLimit"@,
        RejectReason::PriceOffTick => "PriceOffTick"@,
        RejectReason::QtyOffLot => "QtyOffLot"@,
    }
}

pub open spec fn side_word(s: Side) -> Seq<char> {
    match s {
        Side::Buy => "buy"@,
        Side::Sell => "sell"@,
    }
}

pub open spec fn id_text(n: u64) -> Seq<char> {
    nat_digits(n as nat)
}

/// The sentence for an event; a fill names the order's symbol and owner when
/// the order is known.
pub open spec fn summary_text(e: Event, o: Option<Order>) -> Seq<char> {
    match e {
        Event::ParticipantCreated { participant, starting_cash } => "participant "@ + participant@
            + " created with "@ + render_fixed(starting_cash@),
        Event::OrderSubmitted { order } => "cloid "@ + id_text(order.id@) + ": "@ + order.participant@
            + " "@ + side_word(order.side) + " "@ + int_text(order.qty@) + " "@ + order.symbol@
            + " @ "@ + render_fixed(order.limit_px@) + " submitted"@,
        Event::OrderAcknowledged { id, broker_id } => "cloid "@ + id_text(id@)
            + " acknowledged → oid "@ + id_text(broker_id@),
        Event::OrderRejected { id, reason } => "cloid "@ + id_text(id@) + " REJECTED ("@
            + reject_name(reason) + ")"@,
        Event::OrderFilled { id, exec_id, qty, px, fee } => match o {
            Some(ord) => "tid "@ + id_text(exec_id@) + ": fill "@ + int_text(qty@) + " "@
                + ord.symbol@ + " @ "@ + render_fixed(px@) + " on cloid "@ + id_text(id@) + " ("@
                + ord.participant@ + "), fee "@ + render_fixed(fee@),
            None => "tid "@ + id_text(exec_id@) + ": fill "@ + int_text(qty@) + " @ "@
                + render_fixed(px@) + " on cloid "@ + id_text(id@) + ", fee "@ + render_fixed(
                fee@,
            ),
        },
        Event::OrderCancelled { id } => "cloid "@ + id_text(id@) + " cancelled"@,
        Event::OrderReplaced { original, replacement } => "cloid "@ + id_text(original@)
            + " replaced → cloid "@ + id_text(replacement.id@) + ": "@ + int_text(replacement.qty@)
            + " @ "@ + render_fixed(replacement.limit_px@),
        Event::MarkUpdated { symbol, px } => "mark "@ + symbol@ + " → "@ + render_fixed(px@),
        Event::InstrumentUpserted { spec } => "instrument "@ + spec.symbol@ + " listed: tick "@
            + render_fixed(spec.tick@) + ", lot "@ + int_text(spec.lot@),
        Event::InstrumentRemoved { symbol } => "instrument "@ + symbol@ + " delisted"@,
        Event::DayClosed { day, entries } => "day "@ + iso_text(day@.0, day@.1, day@.2)
            + " closed — "@ + nat_digits(entries@.len()) + " participants ranked"@,
    }
}

fn push_str(out: &mut Vec<char>, s: &str)
    ensures
        final(out)@ == old(out)@ + s@,
{
    let cs = chars_of(s);
    let ghost start = out@;
    let mut i: usize = 0;
    while i < cs.len()
        invariant
            i <= cs@.len(),
            cs@ == s@,
            out@ == start + cs@.take(i as int),
        decreases cs@.len() - i,
    {
        out.push(cs[i]);
        i = i + 1;
        assert(out@ =~= start + cs@.take(i as int));
    }
    assert(cs@.take(i as int) =~= cs@);
}

fn push_string(out: &mut Vec<char>, s: String)
    ensures
        final(out)@ == old(out)@ + s@,
{
    push_str(out, s.as_str());
}

fn push_id(out: &mut Vec<char>, n: u64)
    ensures
        final(out)@ == old(out)@ + id_text(n),
{
    push_decimal(out, n);
}

fn reject_word(r: RejectReason) -> (s: &'static str)
    ensures
        s@ == reject_name(r),
{
    match r {
        RejectReason::UnknownSymbol => "UnknownSymbol",
        RejectReason::InsufficientCash => "InsufficientCash",
        RejectReason::InsufficientPosition => "InsufficientPosition",
        RejectReason::ExceedsSizeLimit => "ExceedsSizeLimit",
        RejectReason::PriceOffTick => "PriceOffTick",
        RejectReason::QtyOffLot => "QtyOffLot",
    }
}

/// The sentence for an event, given the order a fill was on when it is
/// known.
pub fn summary(event: &Event, order: Option<&Order>) -> (s: String)
    ensures
        s@ == summary_text(
            *event,
            match order {
                Some(o) => Some(*o),
                None => None,
            },
        ),
{
    let mut out: Vec<char> = Vec::new();
    match event {
        Event::ParticipantCreated { participant, starting_cash } => {
            push_str(&mut out, "participant ");
            push_string(&mut out, participant.render());
            push_str(&mut out, " created with ");
            push_string(&mut out, starting_cash.render());
        },
        Event::OrderSubmitted { order } => {
            push_str(&mut out, "cloid ");
            push_id(&mut out, order.id.get());
            push_str(&mut out, ": ");
            push_string(&mut out, order.participant.render());
            push_str(&mut out, " ");
            push_str(
                &mut out,
                match order.side {
                    Side::Buy => "buy",
                    Side::Sell => "sell",
                },
            );
            push_str(&mut out, " ");
            push_string(&mut out, order.qty.render());
            push_str(&mut out, " ");
            push_string(&mut out, order.symbol.render());
            push_str(&mut out, " @ ");
            push_string(&mut out, order.limit_px.render());
            push_str(&mut out, " submitted");
        },
        Event::OrderAcknowledged { id, broker_id } => {
            push_str(&mut out, "cloid ");
            push_id(&mut out, id.get());
            push_str(&mut out, " acknowledged → oid ");
            push_id(&mut out, broker_id.get());
        },
        Event::OrderRejected { id, reason } => {
            push_str(&mut out, "cloid ");
            push_id(&mut out, id.get());
            push_str(&mut out, " REJECTED (");
            push_str(&mut out, reject_word(*reason));
            push_str(&mut out, ")");
        },
        Event::OrderFilled { id, exec_id, qty, px, fee } => {
            push_str(&mut out, "tid ");
            push_id(&mut out, exec_id.get());
            push_str(&mut out, ": fill ");
            push_string(&mut out, qty.render());
            match order {
                Some(o) => {
                    push_str(&mut out, " ");
                    push_string(&mut out, o.symbol.render());
                    push_str(&mut out, " @ ");
                    push_string(&mut out, px.render());
                    push_str(&mut out, " on cloid ");
                    push_id(&mut out, id.get());
                    push_str(&mut out, " (");
                    push_string(&mut out, o.participant.render());
                    push_str(&mut out, "), fee ");
                    push_string(&mut out, fee.render());
                },
                None => {
                    push_str(&mut out, " @ ");
                    push_string(&mut out, px.render());
                    push_str(&mut out, " on cloid ");
                    push_id(&mut out, id.get());
                    push_str(&mut out, ", fee ");
                    push_string(&mut out, fee.render());
                },
            }
        },
        Event::OrderCancelled { id } => {
            push_str(&mut out, "cloid ");
            push_id(&mut out, id.get());
            push_str(&mut out, " cancelled");
        },
        Event::OrderReplaced { original, replacement } => {
            push_str(&mut out, "cloid ");
            push_id(&mut out, original.get());
            push_str(&mut out, " replaced → cloid ");
            push_id(&mut out, replacement.id.get());
            push_str(&mut out, ": ");
            push_string(&mut out, replacement.qty.render());
            push_str(&mut out, " @ ");
            push_string(&mut out, replacement.limit_px.render());
        },
        Event::MarkUpdated { symbol, px } => {
            push_str(&mut out, "mark ");
            push_string(&mut out, symbol.render());
            push_str(&mut out, " → ");
            push_string(&mut out, px.render());
        },
        Event::InstrumentUpserted { spec } => {
            push_str(&mut out, "instrument ");
            push_string(&mut out, spec.symbol.render());
            push_str(&mut out, " listed: tick ");
            push_string(&mut out, spec.tick.render());
            push_str(&mut out, ", lot ");
            push_string(&mut out, spec.lot.render());
        },
        Event::InstrumentRemoved { symbol } => {
            push_str(&mut out, "instrument ");
            push_string(&mut out, symbol.render());
            push_str(&mut out, " delisted");
        },
        Event::DayClosed { day, entries } => {
            push_str(&mut out, "day ");
            push_string(&mut out, day.render());
            push_str(&mut out, " closed — ");
            push_id(&mut out, entries.len() as u64);
            push_str(&mut out, " participants ranked");
        },
    }
    proof {
        assert(out@ =~= summary_text(
            *event,
            match order {
                Some(o) => Some(*o),
                None => None,
            },
        ));
    }
    string_of(&out)
}

impl<B: Broker> Engine<B> {
    /// The sentence for an event, naming a fill's symbol and owner from the
    /// order it was on.
    pub fn narrate(&self, event: &Event) -> (s: String)
        ensures
            s@ == summary_text(
                *event,
                match *event {
                    Event::OrderFilled { id, .. } => match order_for(self@.orders, id@ as int) {
                        Some(rec) => Some(rec.0),
                        None => None,
                    },
                    _ => None,
                },
            ),
    {
        match event {
            Event::OrderFilled { id, .. } => match self.order(*id) {
                Ok(o) => summary(event, Some(o)),
                Err(_) => summary(event, None),
            },
            _ => summary(event, None),
        }
    }
}

} // verus!
