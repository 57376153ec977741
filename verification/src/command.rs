//! What a caller can ask for. A command is an intent that may be refused; an
//! [`crate::event::Event`] is a fact that already happened and cannot be.
//!
//! Timestamps are not in here — they are passed to the engine by the caller,
//! because nothing in this system reads a clock.
use vstd::prelude::*;

use crate::ids::{ClientOrderId, ParticipantId, Symbol};
use crate::instrument::InstrumentSpec;
use crate::money::{Money, Px, Qty};
use crate::order::Side;
use crate::time::TradingDay;

verus! {

#[derive(Debug, PartialEq, Eq)]
pub enum Command {
    CreateParticipant { participant: ParticipantId, starting_cash: Money },
    SubmitOrder {
        id: ClientOrderId,
        participant: ParticipantId,
        symbol: Symbol,
        side: Side,
        qty: Qty,
        limit_px: Px,
    },
    CancelOrder { id: ClientOrderId },
    ReplaceOrder { id: ClientOrderId, replacement_id: ClientOrderId, qty: Qty, limit_px: Px },
    /// An execution report with terms the caller chose, driven explicitly.
    Execute { id: ClientOrderId, qty: Qty, px: Px },
    /// Let the broker's seeded policy choose the terms instead.
    AutoExecute { id: ClientOrderId },
    UpdateMark { symbol: Symbol, px: Px },
    /// Register a tradable instrument. While the registry is empty every
    /// well-formed symbol trades on permissive grids; the first registration
    /// switches the venue to allowlist mode.
    CreateInstrument { spec: InstrumentSpec },
    /// Replace an instrument's spec. Working orders were validated at
    /// submission and are not re-checked.
    UpdateInstrument { spec: InstrumentSpec },
    /// Delist. Refused while any working order or open position exists on the
    /// symbol: delisting must not strand what it cannot unwind.
    RemoveInstrument { symbol: Symbol },
    /// Snapshot the day and publish its results. Idempotent: closing an
    /// already-closed day produces no events and changes nothing.
    CloseDay { day: TradingDay },
}

impl Clone for Command {
    fn clone(&self) -> (r: Self)
        ensures
            r == *self,
    {
        match self {
            Command::CreateParticipant { participant, starting_cash } => Command::CreateParticipant {
                participant: participant.clone(),
                starting_cash: *starting_cash,
            },
            Command::SubmitOrder { id, participant, symbol, side, qty, limit_px } => {
                Command::SubmitOrder {
                    id: *id,
                    participant: participant.clone(),
                    symbol: symbol.clone(),
                    side: *side,
                    qty: *qty,
                    limit_px: *limit_px,
                }
            },
            Command::CancelOrder { id } => Command::CancelOrder { id: *id },
            Command::ReplaceOrder { id, replacement_id, qty, limit_px } => Command::ReplaceOrder {
                id: *id,
                replacement_id: *replacement_id,
                qty: *qty,
                limit_px: *limit_px,
            },
            Command::Execute { id, qty, px } => Command::Execute { id: *id, qty: *qty, px: *px },
            Command::AutoExecute { id } => Command::AutoExecute { id: *id },
            Command::UpdateMark { symbol, px } => Command::UpdateMark {
                symbol: symbol.clone(),
                px: *px,
            },
            Command::CreateInstrument { spec } => Command::CreateInstrument { spec: spec.clone() },
            Command::UpdateInstrument { spec } => Command::UpdateInstrument { spec: spec.clone() },
            Command::RemoveInstrument { symbol } => Command::RemoveInstrument {
                symbol: symbol.clone(),
            },
            Command::CloseDay { day } => Command::CloseDay { day: *day },
        }
    }
}

} // verus!
