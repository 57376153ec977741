//! A mock broker that generates execution reports.
//!
//! Deterministic by construction: the generator is seeded and owned, and it is
//! ChaCha8, whose stream is pinned, so the same seed and the same order
//! sequence produce the same executions on every run and every machine.
//!
//! What it does not model, deliberately: an order book, queue position,
//! price-time priority, or price improvement. Fills are marketable-limit at the
//! order's own limit price.
use vstd::prelude::*;

use rand::{Rng, SeedableRng};
use rand_chacha::ChaCha8Rng;

use crate::error::DomainError;
use crate::ids::BrokerOrderId;
use crate::lifecycle::{filled_of, is_terminal_state, OrderEvent};
use crate::money::{money_range, Money, Px, Qty};
use crate::order::Order;
use crate::position::trunc_div;

verus! {

broadcast use crate::money::group_money;

#[derive(Debug, Clone, PartialEq, Eq)]
pub enum BrokerError {
    /// The order is not working: there is nothing to execute.
    NotWorking,
    Domain(DomainError),
}

/// One execution report's worth of terms.
#[derive(Debug, Clone, Copy, PartialEq, Eq, Structural)]
pub struct Execution {
    pub qty: Qty,
    pub px: Px,
    pub fee: Money,
}

/// Commission in basis points of notional, rounded toward zero.
///
/// Rounding toward zero rather than to nearest is arbitrary but stated: the
/// alternative is a fee that depends on a rounding rule nobody wrote down.
#[derive(Debug, Clone, Copy, PartialEq, Eq, Structural)]
pub struct FeeSchedule {
    pub bps: i64,
}

/// The fee on `notional` at `bps` basis points, or the overflow that refuses it.
pub open spec fn fee_outcome(bps: int, notional: int) -> Result<int, DomainError> {
    if bps == 0 {
        Ok(0)
    } else {
        let raw = trunc_div(notional * bps, 10000);
        if money_range(raw) {
            Ok(raw)
        } else {
            Err(DomainError::Overflow("fee"))
        }
    }
}

impl FeeSchedule {
    /// No commission at all.
    pub fn free() -> (f: FeeSchedule)
        ensures
            f.bps == 0,
    {
        FeeSchedule { bps: 0 }
    }

    pub fn of(&self, notional: Money) -> (r: Result<Money, DomainError>)
        ensures
            match fee_outcome(self.bps as int, notional@) {
                Ok(v) => r matches Ok(m) && m@ == v,
                Err(e) => r == Err::<Money, DomainError>(e),
            },
    {
        if self.bps == 0 {
            return Ok(Money::zero());
        }
        let n = notional.raw() as i128;
        let b = self.bps as i128;
        proof {
            assert(-0x8000_0000_0000_0000 * 0x8000_0000_0000_0000 <= (n as int) * (b as int)
                <= 0x8000_0000_0000_0000 * 0x8000_0000_0000_0000) by (nonlinear_arith)
                requires
                    -0x8000_0000_0000_0000 <= n <= 0x7fff_ffff_ffff_ffff,
                    -0x8000_0000_0000_0000 <= b <= 0x7fff_ffff_ffff_ffff,
            ;
        }
        let product = n * b;
        let raw: i128 = if product >= 0 {
            product / 10000
        } else {
            -((-product) / 10000)
        };
        if raw < -0x8000_0000_0000_0000 || raw > 0x7fff_ffff_ffff_ffff {
            return Err(DomainError::Overflow("fee"));
        }
        Ok(Money::from_raw(raw as i64))
    }
}

/// How much of an order a single execution takes.
#[derive(Debug, Clone, Copy, PartialEq, Eq, Structural)]
pub enum FillPolicy {
    /// One execution for the whole remaining quantity.
    Complete,
    /// Seeded partials: each execution takes a random slice of at least
    /// `1/max_slices` of the order's original quantity, so any one order
    /// completes in at most `max_slices` executions. Stateless — the bound
    /// comes from the order, so two orders worked at once cannot interfere.
    Partial { max_slices: u32 },
}

/// The smallest slice a partial execution may take: `⌈qty / max(slices, 1)⌉`.
pub open spec fn slice_floor(ordered: int, max_slices: int) -> int {
    let slices = if max_slices < 1 { 1 } else { max_slices };
    if ordered <= 0 {
        0
    } else {
        (ordered - 1) / slices + 1
    }
}

/// What an execution of `order` under `policy` and `fees` may be. `qty` is the
/// size the broker settled on; everything else is fixed by the order.
pub open spec fn execution_outcome(
    order: Order,
    policy: FillPolicy,
    fees: FeeSchedule,
    r: Result<Option<Execution>, BrokerError>,
) -> bool {
    let remaining = order.qty@ - filled_of(order.state);
    if is_terminal_state(order.state) {
        r == Err::<Option<Execution>, BrokerError>(BrokerError::NotWorking)
    } else if remaining < 0 {
        r == Err::<Option<Execution>, BrokerError>(
            BrokerError::Domain(DomainError::NegativeQty(remaining as i64)),
        )
    } else if remaining == 0 {
        r == Ok::<Option<Execution>, BrokerError>(None)
    } else {
        let floor = match policy {
            FillPolicy::Complete => remaining,
            FillPolicy::Partial { max_slices } => slice_floor(order.qty@, max_slices as int),
        };
        let taken_whole = match policy {
            FillPolicy::Complete => true,
            FillPolicy::Partial { .. } => remaining <= floor,
        };
        exists|q: int|
            #![trigger priced(order, fees, q, r)]
            size_allowed(q, remaining, floor, taken_whole) && priced(order, fees, q, r)
    }
}

/// An execution of `q` shares of `order` at its limit, with the fee the
/// schedule charges — or the overflow that refuses it.
pub open spec fn priced(
    order: Order,
    fees: FeeSchedule,
    q: int,
    r: Result<Option<Execution>, BrokerError>,
) -> bool {
    let notional = order.limit_px@ * q;
    if !money_range(notional) {
        r == Err::<Option<Execution>, BrokerError>(
            BrokerError::Domain(DomainError::Overflow("notional")),
        )
    } else {
        match fee_outcome(fees.bps as int, notional) {
            Err(e) => r == Err::<Option<Execution>, BrokerError>(BrokerError::Domain(e)),
            Ok(fee) => r matches Ok(Some(x)) && x.qty@ == q && x.px == order.limit_px && x.fee@
                == fee,
        }
    }
}

/// The sizes an execution may take: the whole remainder, or — for a partial —
/// anything from the slice floor up to it.
pub open spec fn size_allowed(q: int, remaining: int, floor: int, taken_whole: bool) -> bool {
    if taken_whole {
        q == remaining
    } else {
        floor <= q <= remaining
    }
}

/// Every partial execution that does not complete the order takes at least the
/// slice floor, so an order can see at most `max_slices` executions: `k`
/// executions short of completion are fewer than `max_slices`.
pub proof fn law_partials_complete_within_max_slices(ordered: int, max_slices: int, k: int)
    requires
        ordered > 0,
        max_slices >= 1,
        k >= 0,
        k * slice_floor(ordered, max_slices) < ordered,
    ensures
        k < max_slices,
{
    let f = slice_floor(ordered, max_slices);
    assert(f * max_slices >= ordered) by (nonlinear_arith)
        requires
            f == (ordered - 1) / max_slices + 1,
            max_slices >= 1,
            ordered > 0,
    ;
    if k >= max_slices {
        assert(k * f >= max_slices * f) by (nonlinear_arith)
            requires
                k >= max_slices,
                f >= 0,
        ;
    }
}

/// The port the engine depends on. Small on purpose: an engine that can name
/// every method of its broker is an engine coupled to this one.
pub trait Broker: Sized {
    /// The commission this broker charges on a notional, or why it cannot.
    spec fn fee_rule(&self, notional: int) -> Result<int, DomainError>;

    /// `e` is an answer this broker may give to `order`, leaving it as `next`.
    spec fn answers(&self, order: Order, e: OrderEvent, next: Self) -> bool;

    /// `r` is an execution this broker may produce for `order`, leaving it as
    /// `next`.
    spec fn executes(&self, order: Order, r: Result<Option<Execution>, BrokerError>, next: Self) -> bool;

    /// Ack or reject a freshly submitted order. The commission a broker
    /// charges is its own fixed rule: answering an order never changes it.
    fn on_submit(&mut self, order: &Order) -> (e: OrderEvent)
        ensures
            old(self).answers(*order, e, *final(self)),
            forall|n: int| #[trigger] final(self).fee_rule(n) == old(self).fee_rule(n),
    ;

    /// The next execution for a working order, or `None` when it is done.
    fn next_execution(&mut self, order: &Order) -> (r: Result<Option<Execution>, BrokerError>)
        ensures
            old(self).executes(*order, r, *final(self)),
            forall|n: int| #[trigger] final(self).fee_rule(n) == old(self).fee_rule(n),
    ;

    /// The commission on a notional, for executions driven explicitly rather
    /// than generated here.
    fn fee_on(&self, notional: Money) -> (r: Result<Money, DomainError>)
        ensures
            match self.fee_rule(notional@) {
                Ok(v) => r matches Ok(m) && m@ == v,
                Err(e) => r == Err::<Money, DomainError>(e),
            },
    ;
}

#[verifier::external_type_specification]
#[verifier::external_body]
pub struct ExChaCha8Rng(ChaCha8Rng);

/// `ChaCha8Rng::seed_from_u64`: a generator whose stream is fixed by the seed.
/// Nothing is claimed of the stream itself.
#[verifier::external_body]
fn seeded(seed: u64) -> ChaCha8Rng {
    ChaCha8Rng::seed_from_u64(seed)
}

/// `Rng::random_range` over the inclusive range `low..=high`: some value in
/// that range (the range must not be empty). Which one is the generator's.
#[verifier::external_body]
fn draw_between(rng: &mut ChaCha8Rng, low: i64, high: i64) -> (r: i64)
    requires
        low <= high,
    ensures
        low <= r <= high,
{
    rng.random_range(low..=high)
}

pub struct MockBroker {
    rng: ChaCha8Rng,
    next_id: u64,
    policy: FillPolicy,
    fees: FeeSchedule,
}

impl MockBroker {
    pub fn new(seed: u64, policy: FillPolicy, fees: FeeSchedule) -> (b: MockBroker)
        ensures
            b.next_id() == 1,
            b.policy() == policy,
            b.fees() == fees,
    {
        MockBroker { rng: seeded(seed), next_id: 1, policy, fees }
    }

    /// A broker that acks everything and fills completely, with no fees — the
    /// default for tests that are about something else.
    pub fn simple(seed: u64) -> (b: MockBroker)
        ensures
            b.next_id() == 1,
            b.policy() == FillPolicy::Complete,
            b.fees().bps == 0,
    {
        MockBroker::new(seed, FillPolicy::Complete, FeeSchedule::free())
    }

    pub closed spec fn next_id(self) -> u64 {
        self.next_id
    }

    pub closed spec fn policy(self) -> FillPolicy {
        self.policy
    }

    pub closed spec fn fees(self) -> FeeSchedule {
        self.fees
    }

    /// The next broker order id. Ids are minted once each, in order; the
    /// counter wraps at `u64::MAX`.
    fn mint_id(&mut self) -> (id: BrokerOrderId)
        ensures
            id@ == old(self).next_id,
            final(self).next_id == (if old(self).next_id == u64::MAX {
                0
            } else {
                (old(self).next_id + 1) as u64
            }),
            final(self).policy == old(self).policy,
            final(self).fees == old(self).fees,
    {
        let id = BrokerOrderId::new(self.next_id);
        self.next_id = self.next_id.wrapping_add(1);
        id
    }

    /// Acknowledge with a freshly minted id. Reference data lives with the
    /// engine's security master: by the time an order reaches the broker it
    /// has already passed the venue's grids.
    pub fn submit(&mut self, order: &Order) -> (e: OrderEvent)
        ensures
            e matches OrderEvent::Acknowledged { broker_id } && broker_id@ == old(self).next_id(),
            final(self).next_id() == (if old(self).next_id() == u64::MAX {
                0
            } else {
                (old(self).next_id() + 1) as u64
            }),
            final(self).policy() == old(self).policy(),
            final(self).fees() == old(self).fees(),
    {
        let _ = order;
        OrderEvent::Acknowledged { broker_id: self.mint_id() }
    }

    /// The next execution for a working order, filled at the order's own limit.
    pub fn execute(&mut self, order: &Order) -> (r: Result<Option<Execution>, BrokerError>)
        ensures
            execution_outcome(*order, old(self).policy(), old(self).fees(), r),
            final(self).next_id() == old(self).next_id(),
            final(self).policy() == old(self).policy(),
            final(self).fees() == old(self).fees(),
    {
        if order.state.is_terminal() {
            return Err(BrokerError::NotWorking);
        }
        let remaining = match order.remaining() {
            Ok(q) => q,
            Err(e) => {
                return Err(BrokerError::Domain(e));
            },
        };
        if remaining.is_zero() {
            return Ok(None);
        }
        let rem = remaining.get();
        let ghost floor: int;
        let ghost whole: bool;
        let qty = match self.policy {
            FillPolicy::Complete => {
                proof {
                    floor = rem as int;
                    whole = true;
                }
                remaining
            },
            FillPolicy::Partial { max_slices } => {
                // Every execution takes at least 1/max_slices of the order's
                // original quantity: a bound derived from the order itself,
                // never from a counter shared across orders.
                let slices: i64 = if max_slices < 1 {
                    1
                } else {
                    max_slices as i64
                };
                let ordered = order.qty.get();
                let chunk: i64 = if ordered <= 0 {
                    0
                } else {
                    (ordered - 1) / slices + 1
                };
                proof {
                    floor = chunk as int;
                    whole = rem <= chunk;
                }
                if rem <= chunk {
                    remaining
                } else {
                    let n = draw_between(&mut self.rng, chunk, rem);
                    match Qty::new(n) {
                        Ok(q) => q,
                        Err(e) => {
                            return Err(BrokerError::Domain(e));
                        },
                    }
                }
            },
        };
        assert(size_allowed(qty@, rem as int, floor, whole));
        price_execution(order, qty, self.fees)
    }
}

/// An execution of `qty` shares of `order` at its limit, with the fee the
/// schedule charges on the notional — or the overflow that refuses it.
pub fn price_execution(order: &Order, qty: Qty, fees: FeeSchedule) -> (r: Result<
    Option<Execution>,
    BrokerError,
>)
    ensures
        priced(*order, fees, qty@, r),
{
    let px = order.limit_px;
    let notional = match px.notional(qty) {
        Ok(n) => n,
        Err(e) => {
            return Err(BrokerError::Domain(e));
        },
    };
    let fee = match fees.of(notional) {
        Ok(f) => f,
        Err(e) => {
            return Err(BrokerError::Domain(e));
        },
    };
    Ok(Some(Execution { qty, px, fee }))
}

/// The next broker id after `n`: the counter wraps at `u64::MAX`.
pub open spec fn next_broker_id(n: u64) -> u64 {
    if n == u64::MAX {
        0
    } else {
        (n + 1) as u64
    }
}

impl Broker for MockBroker {
    open spec fn fee_rule(&self, notional: int) -> Result<int, DomainError> {
        fee_outcome(self.fees().bps as int, notional)
    }

    /// Every order is acknowledged with the next id, and the counter moves on.
    open spec fn answers(&self, order: Order, e: OrderEvent, next: MockBroker) -> bool {
        &&& e matches OrderEvent::Acknowledged { broker_id } && broker_id@ == self.next_id()
        &&& next.next_id() == next_broker_id(self.next_id())
        &&& next.policy() == self.policy()
        &&& next.fees() == self.fees()
    }

    /// An execution the fill policy allows, at the order's own limit.
    open spec fn executes(
        &self,
        order: Order,
        r: Result<Option<Execution>, BrokerError>,
        next: MockBroker,
    ) -> bool {
        &&& execution_outcome(order, self.policy(), self.fees(), r)
        &&& next.next_id() == self.next_id()
        &&& next.policy() == self.policy()
        &&& next.fees() == self.fees()
    }

    /// Every order is acknowledged, with the next id minted.
    fn on_submit(&mut self, order: &Order) -> (e: OrderEvent)
        ensures
            e matches OrderEvent::Acknowledged { broker_id } && broker_id@ == old(self).next_id(),
            final(self).next_id() == (if old(self).next_id() == u64::MAX {
                0
            } else {
                (old(self).next_id() + 1) as u64
            }),
            final(self).policy() == old(self).policy(),
            final(self).fees() == old(self).fees(),
    {
        self.submit(order)
    }

    /// The next execution the fill policy gives, at the order's own limit.
    fn next_execution(&mut self, order: &Order) -> (r: Result<Option<Execution>, BrokerError>)
        ensures
            execution_outcome(*order, old(self).policy(), old(self).fees(), r),
            final(self).next_id() == old(self).next_id(),
            final(self).policy() == old(self).policy(),
            final(self).fees() == old(self).fees(),
    {
        self.execute(order)
    }

    fn fee_on(&self, notional: Money) -> Result<Money, DomainError> {
        self.fees.of(notional)
    }
}

} // verus!
