use ptc::error::DomainError;
use ptc::ids::{BrokerOrderId, ClientOrderId, ParticipantId, Symbol};
use ptc::lifecycle::{OrderEvent, OrderState, RejectReason, TransitionError};
use ptc::money::{Money, Px, Qty};
use ptc::order::{NewOrder, Order, Side};
use ptc::time::Timestamp;

fn req(id: u64, qty: i64) -> NewOrder {
    NewOrder {
        id: ClientOrderId::new(id),
        participant: ParticipantId::parse("alice").unwrap(),
        symbol: Symbol::parse("AAPL").unwrap(),
        side: Side::Buy,
        qty: Qty::new(qty).unwrap(),
        limit_px: Px::parse("10").unwrap(),
        at: Timestamp::from_millis(1_000),
    }
}

fn acked(qty: i64) -> Order {
    let mut order = Order::submit(req(1, qty)).unwrap();
    order.apply(&OrderEvent::Acknowledged { broker_id: BrokerOrderId::new(7) }).unwrap();
    order
}

#[test]
fn submission_starts_new_and_unlinked() {
    let order = Order::submit(req(1, 100)).unwrap();
    assert_eq!(order.state, OrderState::New);
    assert_eq!(order.replaces, None);
    assert_eq!(order.remaining().unwrap(), Qty::new(100).unwrap());
}

#[test]
fn an_order_for_zero_shares_is_rejected() {
    let mut r = req(1, 100);
    r.qty = Qty::zero();
    assert_eq!(Order::submit(r), Err(DomainError::NonPositiveQty(0)));
}

#[test]
fn remaining_shrinks_as_fills_land() {
    let mut order = acked(100);
    order
        .apply(&OrderEvent::Fill { qty: Qty::new(40).unwrap(), px: Px::parse("10").unwrap() })
        .unwrap();
    assert_eq!(order.remaining().unwrap(), Qty::new(60).unwrap());
}

#[test]
fn replace_withdraws_the_residual_and_preserves_the_fill() {
    let mut order = acked(100);
    order
        .apply(&OrderEvent::Fill { qty: Qty::new(40).unwrap(), px: Px::parse("10").unwrap() })
        .unwrap();
    let out = order
        .replace(
            ClientOrderId::new(2),
            Qty::new(200).unwrap(),
            Px::parse("11").unwrap(),
            Timestamp::from_millis(2_000),
        )
        .unwrap();
    assert_eq!(out.original.state.filled(), Qty::new(40).unwrap());
    assert_eq!(out.original.state.cost(), Money::parse("400").unwrap());
    assert_eq!(out.original.state.name(), "CANCELLED");
    assert_eq!(out.replacement.state, OrderState::New);
    assert_eq!(out.replacement.qty, Qty::new(200).unwrap());
    assert_eq!(out.replacement.limit_px, Px::parse("11").unwrap());
    assert_eq!(out.replacement.replaces, Some(ClientOrderId::new(1)));
    assert_eq!(out.replacement.participant, out.original.participant);
}

#[test]
fn replace_loses_the_race_to_a_completed_fill() {
    let mut order = acked(100);
    order
        .apply(&OrderEvent::Fill { qty: Qty::new(100).unwrap(), px: Px::parse("10").unwrap() })
        .unwrap();
    assert_eq!(
        order.replace(
            ClientOrderId::new(2),
            Qty::new(200).unwrap(),
            Px::parse("11").unwrap(),
            Timestamp::from_millis(2_000),
        ),
        Err(TransitionError::Illegal { state: "FILLED", event: "a cancellation" })
    );
}

#[test]
fn a_rejected_order_cannot_be_replaced() {
    let mut order = Order::submit(req(1, 100)).unwrap();
    order.apply(&OrderEvent::Rejected { reason: RejectReason::InsufficientCash }).unwrap();
    assert!(order
        .replace(
            ClientOrderId::new(2),
            Qty::new(50).unwrap(),
            Px::parse("11").unwrap(),
            Timestamp::from_millis(2_000)
        )
        .is_err());
}

#[test]
fn replacing_an_unacked_order_is_allowed() {
    let order = Order::submit(req(1, 100)).unwrap();
    let out = order
        .replace(
            ClientOrderId::new(2),
            Qty::new(50).unwrap(),
            Px::parse("11").unwrap(),
            Timestamp::from_millis(2_000),
        )
        .unwrap();
    assert_eq!(out.original.state.name(), "CANCELLED");
    assert_eq!(out.replacement.qty, Qty::new(50).unwrap());
}

#[test]
fn an_order_gives_back_its_submission_terms() {
    let order = Order::submit(req(3, 25)).unwrap();
    assert_eq!(order.terms(), req(3, 25));
}
