use ptc::broker::{Broker, BrokerError, FeeSchedule, FillPolicy, MockBroker};
use ptc::ids::{ClientOrderId, ParticipantId, Symbol};
use ptc::lifecycle::OrderEvent;
use ptc::money::{Money, Px, Qty};
use ptc::order::{NewOrder, Order, Side};
use ptc::time::Timestamp;

fn order_for(id: u64, qty: i64, symbol: &str) -> Order {
    Order::submit(NewOrder {
        id: ClientOrderId::new(id),
        participant: ParticipantId::parse("alice").unwrap(),
        symbol: Symbol::parse(symbol).unwrap(),
        side: Side::Buy,
        qty: Qty::new(qty).unwrap(),
        limit_px: Px::parse("10").unwrap(),
        at: Timestamp::from_millis(0),
    })
    .unwrap()
}

fn acked(qty: i64, broker: &mut MockBroker) -> Order {
    let mut o = order_for(1, qty, "AAPL");
    let event = broker.on_submit(&o);
    o.apply(&event).unwrap();
    o
}

fn working(id: u64, qty: i64, broker: &mut MockBroker) -> Order {
    let mut o = order_for(id, qty, "AAPL");
    let ack = broker.on_submit(&o);
    o.apply(&ack).unwrap();
    o
}

fn run_to_fill(broker: &mut MockBroker, qty: i64) -> Vec<i64> {
    let mut o = acked(qty, broker);
    let mut slices = Vec::new();
    while let Some(exec) = broker.next_execution(&o).unwrap() {
        slices.push(exec.qty.get());
        o.apply(&OrderEvent::Fill { qty: exec.qty, px: exec.px }).unwrap();
        if o.state.is_terminal() {
            break;
        }
    }
    slices
}

#[test]
fn the_same_seed_produces_the_same_executions() {
    let policy = FillPolicy::Partial { max_slices: 4 };
    let a = run_to_fill(&mut MockBroker::new(42, policy, FeeSchedule::free()), 100);
    let b = run_to_fill(&mut MockBroker::new(42, policy, FeeSchedule::free()), 100);
    assert_eq!(a, b, "same seed must replay identically");
    assert!(a.len() > 1, "partial policy should produce more than one fill");
}

#[test]
fn a_different_seed_produces_different_executions() {
    let policy = FillPolicy::Partial { max_slices: 4 };
    let a = run_to_fill(&mut MockBroker::new(1, policy, FeeSchedule::free()), 1000);
    let b = run_to_fill(&mut MockBroker::new(2, policy, FeeSchedule::free()), 1000);
    assert_ne!(a, b);
}

#[test]
fn partials_sum_exactly_to_the_ordered_quantity() {
    for seed in 0..25 {
        let slices = run_to_fill(
            &mut MockBroker::new(seed, FillPolicy::Partial { max_slices: 5 }, FeeSchedule::free()),
            997,
        );
        assert_eq!(slices.iter().sum::<i64>(), 997, "seed {seed}");
    }
}

#[test]
fn a_complete_policy_fills_in_one_execution() {
    assert_eq!(run_to_fill(&mut MockBroker::simple(0), 100), vec![100]);
}

#[test]
fn broker_ids_are_minted_once_each() {
    let mut broker = MockBroker::simple(0);
    let ids: Vec<_> = (0..3)
        .map(|_| match broker.on_submit(&order_for(1, 1, "AAPL")) {
            OrderEvent::Acknowledged { broker_id } => broker_id.get(),
            other => panic!("expected an ack, got {other:?}"),
        })
        .collect();
    assert_eq!(ids, vec![1, 2, 3]);
}

#[test]
fn fees_are_basis_points_of_notional() {
    let fees = FeeSchedule { bps: 10 };
    assert_eq!(fees.of(Money::parse("1000").unwrap()).unwrap(), Money::parse("1").unwrap());
    assert_eq!(fees.of(Money::zero()).unwrap(), Money::zero());
    assert_eq!(FeeSchedule::free().of(Money::parse("1000").unwrap()).unwrap(), Money::zero());
}

#[test]
fn executing_a_terminal_order_is_an_error() {
    let mut broker = MockBroker::simple(0);
    let mut o = acked(10, &mut broker);
    o.apply(&OrderEvent::Cancelled).unwrap();
    assert_eq!(broker.next_execution(&o), Err(BrokerError::NotWorking));
}

#[test]
fn interleaved_orders_do_not_share_a_slice_budget() {
    let mut broker = MockBroker::new(7, FillPolicy::Partial { max_slices: 3 }, FeeSchedule::free());
    let mut a = working(1, 1000, &mut broker);
    let mut b = working(2, 1000, &mut broker);
    for _ in 0..2 {
        let e = broker.next_execution(&a).unwrap().unwrap();
        a.apply(&OrderEvent::Fill { qty: e.qty, px: e.px }).unwrap();
    }
    let first_b = broker.next_execution(&b).unwrap().unwrap();
    b.apply(&OrderEvent::Fill { qty: first_b.qty, px: first_b.px }).unwrap();
    assert!(!b.state.is_terminal(), "B completed on its first execution because A had spent the budget");
}

#[test]
fn an_order_never_takes_more_than_max_slices_executions() {
    for seed in 0..40 {
        for max_slices in 1..=5 {
            let mut broker = MockBroker::new(seed, FillPolicy::Partial { max_slices }, FeeSchedule::free());
            let mut o = working(1, 997, &mut broker);
            let mut fills = 0;
            while !o.state.is_terminal() {
                let e = broker.next_execution(&o).unwrap().unwrap();
                o.apply(&OrderEvent::Fill { qty: e.qty, px: e.px }).unwrap();
                fills += 1;
                assert!(fills <= max_slices, "seed {seed} max {max_slices}: {fills} fills");
            }
            assert_eq!(o.state.filled(), Qty::new(997).unwrap());
        }
    }
}

#[test]
fn fees_round_toward_zero_and_overflow_is_refused() {
    let fees = FeeSchedule { bps: 10 };
    // 10bp of 0.0999 is 0.0000999: below the scale, so nothing.
    assert_eq!(fees.of(Money::parse("0.0999").unwrap()).unwrap(), Money::zero());
    assert_eq!(fees.of(Money::parse("-1000").unwrap()).unwrap(), Money::parse("-1").unwrap());
    let huge = FeeSchedule { bps: i64::MAX };
    assert!(huge.of(Money::from_raw(i64::MAX)).is_err());
}

#[test]
fn an_explicit_fee_goes_through_the_schedule() {
    let broker = MockBroker::new(0, FillPolicy::Complete, FeeSchedule { bps: 25 });
    assert_eq!(broker.fee_on(Money::parse("4000").unwrap()).unwrap(), Money::parse("10").unwrap());
}

#[test]
fn a_drawn_size_is_priced_at_the_limit_with_the_schedule_fee() {
    let o = order_for(1, 100, "AAPL");
    let x = ptc::broker::price_execution(&o, Qty::new(40).unwrap(), FeeSchedule { bps: 10 }).unwrap().unwrap();
    assert_eq!(x.qty.get(), 40);
    assert_eq!(x.px, Px::parse("10").unwrap());
    assert_eq!(x.fee, Money::parse("0.4").unwrap());
}
