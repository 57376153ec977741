//! The stored shape of the event log.
//!
//! Domain types carry no serialisation of their own, so the on-disk shape is
//! defined here and mapped explicitly: a rename inside the domain cannot
//! silently change the format of data already written, and the format is a
//! decision made in one place. Every amount crosses as its raw scaled integer,
//! never a float.
//!
//! Reading back is strict: a stored value that is not valid domain data is
//! refused with the domain's own error, never repaired.
use vstd::prelude::*;
use vstd::utf8::encode_utf8;

use crate::error::DomainError;
use crate::event::{Event, Journaled};
use crate::ids::{
    ident_error, valid_participant, valid_symbol, BrokerOrderId, ClientOrderId, ExecutionId,
    IdentKind, ParticipantId, Symbol,
};
use crate::instrument::InstrumentSpec;
use crate::lifecycle::RejectReason;
use crate::money::{Money, Px, Qty};
use crate::order::{NewOrder, Side};
use crate::scoring::DayInput;
use crate::time::{date_ok, iso_text, parsed_date, Timestamp, TradingDay};

verus! {

broadcast use crate::money::group_money;

#[derive(Debug, Clone, Copy, PartialEq, Eq, Structural)]
pub enum WireSide {
    Buy,
    Sell,
}

#[derive(Debug, Clone, Copy, PartialEq, Eq, Structural)]
pub enum WireReject {
    UnknownSymbol,
    InsufficientCash,
    InsufficientPosition,
    ExceedsSizeLimit,
    PriceOffTick,
    QtyOffLot,
}

#[derive(Debug, PartialEq, Eq)]
pub struct WireDayInput {
    pub participant: String,
    pub closing_value: i64,
    pub prior_closing_value: i64,
    pub turnover: i64,
    pub active: bool,
}

/// Submission terms. No state and no `replaces` field: an order is always
/// `NEW` when submitted, and the replace link is the event's own `original`.
/// Storing either would be storing a fact twice.
#[derive(Debug, PartialEq, Eq)]
pub struct WireOrder {
    pub id: u64,
    pub participant: String,
    pub symbol: String,
    pub side: WireSide,
    pub qty: i64,
    pub limit_px: i64,
    pub submitted_at: i64,
}

#[derive(Debug, PartialEq, Eq)]
pub struct WireInstrument {
    pub symbol: String,
    pub tick: i64,
    pub lot: i64,
    pub max_order_qty: Option<i64>,
}

#[derive(Debug, PartialEq, Eq)]
pub enum WireEvent {
    ParticipantCreated { participant: String, starting_cash: i64 },
    OrderSubmitted { order: WireOrder },
    OrderAcknowledged { id: u64, broker_id: u64 },
    OrderRejected { id: u64, reason: WireReject },
    OrderFilled { id: u64, exec_id: u64, qty: i64, px: i64, fee: i64 },
    OrderCancelled { id: u64 },
    OrderReplaced { original: u64, replacement: WireOrder },
    MarkUpdated { symbol: String, px: i64 },
    InstrumentUpserted { spec: WireInstrument },
    InstrumentRemoved { symbol: String },
    DayClosed { day: String, entries: Vec<WireDayInput> },
}

// ---- the correspondence ---------------------------------------------------------

pub open spec fn side_wire(s: Side) -> WireSide {
    match s {
        Side::Buy => WireSide::Buy,
        Side::Sell => WireSide::Sell,
    }
}

pub open spec fn reject_wire(r: RejectReason) -> WireReject {
    match r {
        RejectReason::UnknownSymbol => WireReject::UnknownSymbol,
        RejectReason::InsufficientCash => WireReject::InsufficientCash,
        RejectReason::InsufficientPosition => WireReject::InsufficientPosition,
        RejectReason::ExceedsSizeLimit => WireReject::ExceedsSizeLimit,
        RejectReason::PriceOffTick => WireReject::PriceOffTick,
        RejectReason::QtyOffLot => WireReject::QtyOffLot,
    }
}

/// `w` stores the day input `d`.
pub open spec fn entry_matches(w: WireDayInput, d: DayInput) -> bool {
    &&& w.participant@ == d.participant@
    &&& w.closing_value == d.closing_value@
    &&& w.prior_closing_value == d.prior_closing_value@
    &&& w.turnover == d.turnover@
    &&& w.active == d.active
}

pub open spec fn entries_match(ws: Seq<WireDayInput>, ds: Seq<DayInput>) -> bool {
    ws.len() == ds.len() && forall|i: int|
        0 <= i < ws.len() ==> entry_matches(#[trigger] ws[i], ds[i])
}

/// `w` stores the submission terms `o`.
pub open spec fn order_matches(w: WireOrder, o: NewOrder) -> bool {
    &&& w.id == o.id@
    &&& w.participant@ == o.participant@
    &&& w.symbol@ == o.symbol@
    &&& w.side == side_wire(o.side)
    &&& w.qty == o.qty@
    &&& w.limit_px == o.limit_px@
    &&& w.submitted_at == o.at@
}

/// `w` stores the instrument `s`.
pub open spec fn instrument_matches(w: WireInstrument, s: InstrumentSpec) -> bool {
    &&& w.symbol@ == s.symbol@
    &&& w.tick == s.tick@
    &&& w.lot == s.lot@
    &&& match (w.max_order_qty, s.max_order_qty) {
        (Some(a), Some(b)) => a == b@,
        (None, None) => true,
        _ => false,
    }
}

/// The day that stored text reads back as.
pub open spec fn day_read(s: Seq<char>) -> Option<(int, int, int)> {
    if encode_utf8(s).len() as usize != 10 {
        None
    } else {
        match parsed_date(s) {
            Some((y, m, d)) => Some((y as int, m as int, d as int)),
            None => None,
        }
    }
}

/// `w` stores the event `e`. The day of a close is stored as its ISO text
/// when written (`by_text`) and read back through the date parser.
pub open spec fn event_matches(w: WireEvent, e: Event, by_text: bool) -> bool {
    match (w, e) {
        (
            WireEvent::ParticipantCreated { participant, starting_cash },
            Event::ParticipantCreated { participant: p, starting_cash: c },
        ) => participant@ == p@ && starting_cash == c@,
        (WireEvent::OrderSubmitted { order }, Event::OrderSubmitted { order: o }) => order_matches(
            order,
            o,
        ),
        (
            WireEvent::OrderAcknowledged { id, broker_id },
            Event::OrderAcknowledged { id: i, broker_id: b },
        ) => id == i@ && broker_id == b@,
        (WireEvent::OrderRejected { id, reason }, Event::OrderRejected { id: i, reason: r }) => id
            == i@ && reason == reject_wire(r),
        (
            WireEvent::OrderFilled { id, exec_id, qty, px, fee },
            Event::OrderFilled { id: i, exec_id: x, qty: q, px: p, fee: f },
        ) => id == i@ && exec_id == x@ && qty == q@ && px == p@ && fee == f@,
        (WireEvent::OrderCancelled { id }, Event::OrderCancelled { id: i }) => id == i@,
        (
            WireEvent::OrderReplaced { original, replacement },
            Event::OrderReplaced { original: o, replacement: r },
        ) => original == o@ && order_matches(replacement, r),
        (WireEvent::MarkUpdated { symbol, px }, Event::MarkUpdated { symbol: s, px: p }) => symbol@
            == s@ && px == p@,
        (WireEvent::InstrumentUpserted { spec }, Event::InstrumentUpserted { spec: s }) =>
            instrument_matches(spec, s),
        (WireEvent::InstrumentRemoved { symbol }, Event::InstrumentRemoved { symbol: s }) => symbol@
            == s@,
        (WireEvent::DayClosed { day, entries }, Event::DayClosed { day: d, entries: es }) => (if by_text {
            day@ == iso_text(d@.0, d@.1, d@.2)
        } else {
            day_read(day@) == Some(d@)
        }) && entries_match(entries@, es@),
        _ => false,
    }
}

// ---- reading back ---------------------------------------------------------------

pub open spec fn order_readable(w: WireOrder) -> bool {
    valid_participant(w.participant@) && valid_symbol(w.symbol@) && w.qty >= 0 && w.limit_px > 0
}

/// The error reading `w` back fails with: its first invalid field's.
pub open spec fn order_fault(w: WireOrder, e: DomainError) -> bool {
    if !valid_participant(w.participant@) {
        ident_error(IdentKind::Participant, e, w.participant@)
    } else if !valid_symbol(w.symbol@) {
        ident_error(IdentKind::Symbol, e, w.symbol@)
    } else if w.qty < 0 {
        e == DomainError::NegativeQty(w.qty)
    } else if w.limit_px <= 0 {
        e == DomainError::NonPositivePx(w.limit_px)
    } else {
        false
    }
}

pub open spec fn instrument_readable(w: WireInstrument) -> bool {
    &&& valid_symbol(w.symbol@)
    &&& w.tick > 0
    &&& w.lot > 0
    &&& match w.max_order_qty {
        Some(m) => m >= 0,
        None => true,
    }
}

pub open spec fn instrument_fault(w: WireInstrument, e: DomainError) -> bool {
    if !valid_symbol(w.symbol@) {
        ident_error(IdentKind::Symbol, e, w.symbol@)
    } else if w.tick <= 0 {
        e == DomainError::NonPositivePx(w.tick)
    } else if w.lot < 0 {
        e == DomainError::NegativeQty(w.lot)
    } else if w.max_order_qty matches Some(m) && m < 0 {
        e == DomainError::NegativeQty(w.max_order_qty->Some_0)
    } else if w.lot == 0 {
        e == DomainError::NonPositiveQty(0)
    } else {
        false
    }
}

pub open spec fn entries_readable(ws: Seq<WireDayInput>) -> bool {
    forall|i: int| 0 <= i < ws.len() ==> valid_participant(#[trigger] ws[i].participant@)
}

/// The first stored entry with an invalid participant id, and its error.
pub open spec fn entries_fault(ws: Seq<WireDayInput>, e: DomainError) -> bool {
    exists|i: int|
        0 <= i < ws.len() && !valid_participant(#[trigger] ws[i].participant@) && (forall|k: int|
            0 <= k < i ==> valid_participant(#[trigger] ws[k].participant@)) && ident_error(
            IdentKind::Participant,
            e,
            ws[i].participant@,
        )
}

/// Every field of `w` is valid domain data.
pub open spec fn event_readable(w: WireEvent) -> bool {
    match w {
        WireEvent::ParticipantCreated { participant, .. } => valid_participant(participant@),
        WireEvent::OrderSubmitted { order } => order_readable(order),
        WireEvent::OrderFilled { qty, px, .. } => qty >= 0 && px > 0,
        WireEvent::OrderReplaced { replacement, .. } => order_readable(replacement),
        WireEvent::MarkUpdated { symbol, px } => valid_symbol(symbol@) && px > 0,
        WireEvent::InstrumentUpserted { spec } => instrument_readable(spec),
        WireEvent::InstrumentRemoved { symbol } => valid_symbol(symbol@),
        WireEvent::DayClosed { day, entries } => day_read(day@) is Some && entries_readable(
            entries@,
        ),
        _ => true,
    }
}

/// The error reading `w` back fails with: the first invalid field's.
pub open spec fn event_fault(w: WireEvent, e: DomainError) -> bool {
    match w {
        WireEvent::ParticipantCreated { participant, .. } => !valid_participant(participant@)
            && ident_error(IdentKind::Participant, e, participant@),
        WireEvent::OrderSubmitted { order } => order_fault(order, e),
        WireEvent::OrderFilled { qty, px, .. } => if qty < 0 {
            e == DomainError::NegativeQty(qty)
        } else if px <= 0 {
            e == DomainError::NonPositivePx(px)
        } else {
            false
        },
        WireEvent::OrderReplaced { replacement, .. } => order_fault(replacement, e),
        WireEvent::MarkUpdated { symbol, px } => if !valid_symbol(symbol@) {
            ident_error(IdentKind::Symbol, e, symbol@)
        } else if px <= 0 {
            e == DomainError::NonPositivePx(px)
        } else {
            false
        },
        WireEvent::InstrumentUpserted { spec } => instrument_fault(spec, e),
        WireEvent::InstrumentRemoved { symbol } => !valid_symbol(symbol@) && ident_error(
            IdentKind::Symbol,
            e,
            symbol@,
        ),
        WireEvent::DayClosed { day, entries } => if day_read(day@) is None {
            e matches DomainError::ParseDate(t) && t@ == day@
        } else {
            entries_fault(entries@, e)
        },
        _ => false,
    }
}

// ---- writing --------------------------------------------------------------------

fn side_to_wire(s: Side) -> (w: WireSide)
    ensures
        w == side_wire(s),
{
    match s {
        Side::Buy => WireSide::Buy,
        Side::Sell => WireSide::Sell,
    }
}

fn side_from_wire(w: WireSide) -> (s: Side)
    ensures
        side_wire(s) == w,
{
    match w {
        WireSide::Buy => Side::Buy,
        WireSide::Sell => Side::Sell,
    }
}

fn reject_to_wire(r: RejectReason) -> (w: WireReject)
    ensures
        w == reject_wire(r),
{
    match r {
        RejectReason::UnknownSymbol => WireReject::UnknownSymbol,
        RejectReason::InsufficientCash => WireReject::InsufficientCash,
        RejectReason::InsufficientPosition => WireReject::InsufficientPosition,
        RejectReason::ExceedsSizeLimit => WireReject::ExceedsSizeLimit,
        RejectReason::PriceOffTick => WireReject::PriceOffTick,
        RejectReason::QtyOffLot => WireReject::QtyOffLot,
    }
}

fn reject_from_wire(w: WireReject) -> (r: RejectReason)
    ensures
        reject_wire(r) == w,
{
    match w {
        WireReject::UnknownSymbol => RejectReason::UnknownSymbol,
        WireReject::InsufficientCash => RejectReason::InsufficientCash,
        WireReject::InsufficientPosition => RejectReason::InsufficientPosition,
        WireReject::ExceedsSizeLimit => RejectReason::ExceedsSizeLimit,
        WireReject::PriceOffTick => RejectReason::PriceOffTick,
        WireReject::QtyOffLot => RejectReason::QtyOffLot,
    }
}

impl WireOrder {
    pub fn from_order(o: &NewOrder) -> (w: WireOrder)
        ensures
            order_matches(w, *o),
    {
        WireOrder {
            id: o.id.get(),
            participant: o.participant.render(),
            symbol: o.symbol.render(),
            side: side_to_wire(o.side),
            qty: o.qty.get(),
            limit_px: o.limit_px.raw(),
            submitted_at: o.at.as_millis(),
        }
    }

    pub fn into_order(self) -> (r: Result<NewOrder, DomainError>)
        ensures
            match r {
                Ok(o) => order_readable(self) && order_matches(self, o),
                Err(e) => order_fault(self, e),
            },
    {
        let participant = match ParticipantId::parse(self.participant.as_str()) {
            Ok(p) => p,
            Err(e) => return Err(e),
        };
        let symbol = match Symbol::parse(self.symbol.as_str()) {
            Ok(s) => s,
            Err(e) => return Err(e),
        };
        let qty = match Qty::new(self.qty) {
            Ok(q) => q,
            Err(e) => return Err(e),
        };
        let limit_px = match Px::from_raw(self.limit_px) {
            Ok(p) => p,
            Err(e) => return Err(e),
        };
        Ok(
            NewOrder {
                id: ClientOrderId::new(self.id),
                participant,
                symbol,
                side: side_from_wire(self.side),
                qty,
                limit_px,
                at: Timestamp::from_millis(self.submitted_at),
            },
        )
    }
}

impl WireInstrument {
    pub fn from_spec(s: &InstrumentSpec) -> (w: WireInstrument)
        ensures
            instrument_matches(w, *s),
    {
        WireInstrument {
            symbol: s.symbol.render(),
            tick: s.tick.raw(),
            lot: s.lot.get(),
            max_order_qty: match s.max_order_qty {
                Some(m) => Some(m.get()),
                None => None,
            },
        }
    }

    pub fn into_spec(self) -> (r: Result<InstrumentSpec, DomainError>)
        ensures
            match r {
                Ok(s) => instrument_readable(self) && instrument_matches(self, s),
                Err(e) => instrument_fault(self, e),
            },
    {
        let symbol = match Symbol::parse(self.symbol.as_str()) {
            Ok(s) => s,
            Err(e) => return Err(e),
        };
        let tick = match Px::from_raw(self.tick) {
            Ok(p) => p,
            Err(e) => return Err(e),
        };
        let lot = match Qty::new(self.lot) {
            Ok(q) => q,
            Err(e) => return Err(e),
        };
        let max_order_qty = match self.max_order_qty {
            Some(m) => match Qty::new(m) {
                Ok(q) => Some(q),
                Err(e) => return Err(e),
            },
            None => None,
        };
        InstrumentSpec::new(symbol, tick, lot, max_order_qty)
    }
}

impl WireDayInput {
    pub fn from_input(d: &DayInput) -> (w: WireDayInput)
        ensures
            entry_matches(w, *d),
    {
        WireDayInput {
            participant: d.participant.render(),
            closing_value: d.closing_value.raw(),
            prior_closing_value: d.prior_closing_value.raw(),
            turnover: d.turnover.raw(),
            active: d.active,
        }
    }
}

fn entries_to_wire(es: &Vec<DayInput>) -> (ws: Vec<WireDayInput>)
    ensures
        entries_match(ws@, es@),
{
    let mut out: Vec<WireDayInput> = Vec::new();
    let mut i: usize = 0;
    while i < es.len()
        invariant
            i <= es@.len(),
            out@.len() == i,
            forall|k: int| 0 <= k < i ==> entry_matches(#[trigger] out@[k], es@[k]),
        decreases es@.len() - i,
    {
        out.push(WireDayInput::from_input(&es[i]));
        i = i + 1;
    }
    out
}

fn entries_from_wire(ws: &Vec<WireDayInput>) -> (r: Result<Vec<DayInput>, DomainError>)
    ensures
        match r {
            Ok(es) => entries_readable(ws@) && entries_match(ws@, es@),
            Err(e) => entries_fault(ws@, e),
        },
{
    let mut out: Vec<DayInput> = Vec::new();
    let mut i: usize = 0;
    while i < ws.len()
        invariant
            i <= ws@.len(),
            out@.len() == i,
            forall|k: int| 0 <= k < i ==> valid_participant(#[trigger] ws@[k].participant@),
            forall|k: int| 0 <= k < i ==> entry_matches(#[trigger] ws@[k], out@[k]),
        decreases ws@.len() - i,
    {
        let w = &ws[i];
        let participant = match ParticipantId::parse(w.participant.as_str()) {
            Ok(p) => p,
            Err(e) => {
                assert(!valid_participant(ws@[i as int].participant@));
                return Err(e);
            },
        };
        out.push(
            DayInput {
                participant,
                closing_value: Money::from_raw(w.closing_value),
                prior_closing_value: Money::from_raw(w.prior_closing_value),
                turnover: Money::from_raw(w.turnover),
                active: w.active,
            },
        );
        i = i + 1;
    }
    Ok(out)
}

impl WireEvent {
    /// The stored form of an event.
    pub fn from_event(e: &Event) -> (w: WireEvent)
        ensures
            event_matches(w, *e, true),
    {
        match e {
            Event::ParticipantCreated { participant, starting_cash } => WireEvent::ParticipantCreated {
                participant: participant.render(),
                starting_cash: starting_cash.raw(),
            },
            Event::OrderSubmitted { order } => WireEvent::OrderSubmitted {
                order: WireOrder::from_order(order),
            },
            Event::OrderAcknowledged { id, broker_id } => WireEvent::OrderAcknowledged {
                id: id.get(),
                broker_id: broker_id.get(),
            },
            Event::OrderRejected { id, reason } => WireEvent::OrderRejected {
                id: id.get(),
                reason: reject_to_wire(*reason),
            },
            Event::OrderFilled { id, exec_id, qty, px, fee } => WireEvent::OrderFilled {
                id: id.get(),
                exec_id: exec_id.get(),
                qty: qty.get(),
                px: px.raw(),
                fee: fee.raw(),
            },
            Event::OrderCancelled { id } => WireEvent::OrderCancelled { id: id.get() },
            Event::OrderReplaced { original, replacement } => WireEvent::OrderReplaced {
                original: original.get(),
                replacement: WireOrder::from_order(replacement),
            },
            Event::MarkUpdated { symbol, px } => WireEvent::MarkUpdated {
                symbol: symbol.render(),
                px: px.raw(),
            },
            Event::InstrumentUpserted { spec } => WireEvent::InstrumentUpserted {
                spec: WireInstrument::from_spec(spec),
            },
            Event::InstrumentRemoved { symbol } => WireEvent::InstrumentRemoved {
                symbol: symbol.render(),
            },
            Event::DayClosed { day, entries } => WireEvent::DayClosed {
                day: day.render(),
                entries: entries_to_wire(entries),
            },
        }
    }

    /// Read a stored event back, refusing any field that is not valid domain
    /// data with the first such field's error.
    ///
    /// What is written reads back: the stored form of a valid event (a day
    /// close of a year from 0 to 9999 included) is read, and reads as the
    /// event that was written.
    pub fn into_event(self) -> (r: Result<Event, DomainError>)
        ensures
            match r {
                Ok(e) => event_readable(self) && event_matches(self, e, false),
                Err(err) => event_fault(self, err),
            },
            forall|e: Event|
                event_valid(e) && #[trigger] event_matches(self, e, true) ==> (r matches Ok(x)
                    && reads_back_as(self, x, e)),
    {
        match self {
            WireEvent::ParticipantCreated { participant, starting_cash } => {
                match ParticipantId::parse(participant.as_str()) {
                    Ok(p) => Ok(
                        Event::ParticipantCreated {
                            participant: p,
                            starting_cash: Money::from_raw(starting_cash),
                        },
                    ),
                    Err(e) => Err(e),
                }
            },
            WireEvent::OrderSubmitted { order } => match order.into_order() {
                Ok(o) => Ok(Event::OrderSubmitted { order: o }),
                Err(e) => Err(e),
            },
            WireEvent::OrderAcknowledged { id, broker_id } => Ok(
                Event::OrderAcknowledged {
                    id: ClientOrderId::new(id),
                    broker_id: BrokerOrderId::new(broker_id),
                },
            ),
            WireEvent::OrderRejected { id, reason } => Ok(
                Event::OrderRejected { id: ClientOrderId::new(id), reason: reject_from_wire(reason) },
            ),
            WireEvent::OrderFilled { id, exec_id, qty, px, fee } => {
                let q = match Qty::new(qty) {
                    Ok(q) => q,
                    Err(e) => return Err(e),
                };
                let p = match Px::from_raw(px) {
                    Ok(p) => p,
                    Err(e) => return Err(e),
                };
                Ok(
                    Event::OrderFilled {
                        id: ClientOrderId::new(id),
                        exec_id: ExecutionId::new(exec_id),
                        qty: q,
                        px: p,
                        fee: Money::from_raw(fee),
                    },
                )
            },
            WireEvent::OrderCancelled { id } => Ok(
                Event::OrderCancelled { id: ClientOrderId::new(id) },
            ),
            WireEvent::OrderReplaced { original, replacement } => match replacement.into_order() {
                Ok(o) => Ok(
                    Event::OrderReplaced { original: ClientOrderId::new(original), replacement: o },
                ),
                Err(e) => Err(e),
            },
            WireEvent::MarkUpdated { symbol, px } => {
                let s = match Symbol::parse(symbol.as_str()) {
                    Ok(s) => s,
                    Err(e) => return Err(e),
                };
                match Px::from_raw(px) {
                    Ok(p) => Ok(Event::MarkUpdated { symbol: s, px: p }),
                    Err(e) => Err(e),
                }
            },
            WireEvent::InstrumentUpserted { spec } => match spec.into_spec() {
                Ok(s) => Ok(Event::InstrumentUpserted { spec: s }),
                Err(e) => Err(e),
            },
            WireEvent::InstrumentRemoved { symbol } => match Symbol::parse(symbol.as_str()) {
                Ok(s) => Ok(Event::InstrumentRemoved { symbol: s }),
                Err(e) => Err(e),
            },
            WireEvent::DayClosed { day, entries } => {
                let d = match TradingDay::parse(day.as_str()) {
                    Ok(d) => d,
                    Err(e) => return Err(e),
                };
                match entries_from_wire(&entries) {
                    Ok(es) => Ok(Event::DayClosed { day: d, entries: es }),
                    Err(e) => Err(e),
                }
            },
        }
    }
}

/// Rebuild a journal entry from its stored columns.
pub fn journaled(seq: u64, at: i64, wire: WireEvent) -> (r: Result<Journaled, DomainError>)
    ensures
        match r {
            Ok(j) => j.seq == seq && j.at@ == at && event_readable(wire) && event_matches(
                wire,
                j.event,
                false,
            ),
            Err(err) => event_fault(wire, err),
        },
        forall|e: Event|
            event_valid(e) && #[trigger] event_matches(wire, e, true) ==> (r matches Ok(j)
                && reads_back_as(wire, j.event, e)),
{
    let ghost w = wire;
    match wire.into_event() {
        Ok(event) => Ok(Journaled { seq, at: Timestamp::from_millis(at), event }),
        Err(e) => Err(e),
    }
}


// ---- what is written reads back ----------------------------------------------------

pub open spec fn order_valid(o: NewOrder) -> bool {
    valid_participant(o.participant@) && valid_symbol(o.symbol@) && o.qty@ >= 0 && o.limit_px@ > 0
}

/// Every id, quantity and price `e` carries is valid domain data, as the
/// types' constructors guarantee.
pub open spec fn event_valid(e: Event) -> bool {
    match e {
        Event::ParticipantCreated { participant, .. } => valid_participant(participant@),
        Event::OrderSubmitted { order } => order_valid(order),
        Event::OrderFilled { qty, px, .. } => qty@ >= 0 && px@ > 0,
        Event::OrderReplaced { replacement, .. } => order_valid(replacement),
        Event::MarkUpdated { symbol, px } => valid_symbol(symbol@) && px@ > 0,
        Event::InstrumentUpserted { spec } => valid_symbol(spec.symbol@) && spec.tick@ > 0
            && spec.lot@ > 0 && (spec.max_order_qty matches Some(m) ==> m@ >= 0),
        Event::InstrumentRemoved { symbol } => valid_symbol(symbol@),
        Event::DayClosed { day, entries } => {
            &&& date_ok(day@.0, day@.1, day@.2)
            &&& 0 <= day@.0 <= 9999
            &&& forall|i: int|
                0 <= i < entries@.len() ==> valid_participant(#[trigger] entries@[i].participant@)
        },
        _ => true,
    }
}

/// `x`, read back from the stored form `w` of `e`, is `e` again: every field
/// agrees, a close's day included.
pub open spec fn reads_back_as(w: WireEvent, x: Event, e: Event) -> bool {
    match (x, e) {
        (Event::DayClosed { day: dx, .. }, Event::DayClosed { day: de, .. }) => dx@ == de@
            && event_matches(w, x, true),
        _ => event_matches(w, x, false),
    }
}

} // verus!
