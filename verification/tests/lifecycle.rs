use ptc::ids::BrokerOrderId;
use ptc::lifecycle::{apply, OrderEvent, OrderState, RejectReason, TransitionError};
use ptc::money::{Money, Px, Qty};

const ORDERED: i64 = 100;

fn broker() -> BrokerOrderId {
    BrokerOrderId::new(7)
}
fn qty(n: i64) -> Qty {
    Qty::new(n).unwrap()
}
fn px(s: &str) -> Px {
    Px::parse(s).unwrap()
}
fn money(s: &str) -> Money {
    Money::parse(s).unwrap()
}
fn step(state: &OrderState, event: &OrderEvent) -> Result<OrderState, TransitionError> {
    apply(state, qty(ORDERED), event)
}

fn all_states() -> Vec<OrderState> {
    vec![
        OrderState::New,
        OrderState::Acknowledged { broker_id: broker() },
        OrderState::PartiallyFilled { broker_id: broker(), filled: qty(40), cost: money("400") },
        OrderState::Filled { filled: qty(ORDERED), cost: money("1000") },
        OrderState::Cancelled { filled: qty(40), cost: money("400") },
        OrderState::Rejected { reason: RejectReason::UnknownSymbol },
    ]
}

fn all_events() -> Vec<OrderEvent> {
    vec![
        OrderEvent::Acknowledged { broker_id: broker() },
        OrderEvent::Rejected { reason: RejectReason::InsufficientCash },
        OrderEvent::Fill { qty: qty(10), px: px("10") },
        OrderEvent::Cancelled,
    ]
}

#[test]
fn every_state_event_pair_is_specified() {
    let expected = [
        true, true, false, true, //
        false, false, true, true, //
        false, false, true, true, //
        false, false, false, false, //
        false, false, false, false, //
        false, false, false, false,
    ];
    let states = all_states();
    let events = all_events();
    assert_eq!(expected.len(), states.len() * events.len(), "the table must cover every pair");
    let mut i = 0;
    for state in &states {
        for event in &events {
            let got = step(state, event);
            assert_eq!(got.is_ok(), expected[i], "{} + {} gave {got:?}", state.name(), event.name());
            i += 1;
        }
    }
}

#[test]
fn acknowledgement_records_the_broker_id() {
    let acked = step(&OrderState::New, &OrderEvent::Acknowledged { broker_id: broker() }).unwrap();
    assert_eq!(acked.broker_id(), Some(broker()));
}

#[test]
fn partial_fills_accumulate_then_close_to_filled() {
    let mut state = OrderState::Acknowledged { broker_id: broker() };
    state = step(&state, &OrderEvent::Fill { qty: qty(30), px: px("10") }).unwrap();
    assert_eq!(state.name(), "PARTIALLY_FILLED");
    assert_eq!(state.filled(), qty(30));
    state = step(&state, &OrderEvent::Fill { qty: qty(50), px: px("10") }).unwrap();
    assert_eq!(state.filled(), qty(80));
    assert_eq!(state.name(), "PARTIALLY_FILLED");
    state = step(&state, &OrderEvent::Fill { qty: qty(20), px: px("10") }).unwrap();
    assert_eq!(state.name(), "FILLED");
    assert_eq!(state.filled(), qty(ORDERED));
    assert_eq!(state.cost(), money("1000"));
}

#[test]
fn cost_accumulates_exactly_rather_than_averaging() {
    let mut state = OrderState::Acknowledged { broker_id: broker() };
    state = step(&state, &OrderEvent::Fill { qty: qty(1), px: px("10.0050") }).unwrap();
    state = step(&state, &OrderEvent::Fill { qty: qty(2), px: px("10.0150") }).unwrap();
    assert_eq!(state.cost(), money("30.0350"));
    assert_eq!(state.filled(), qty(3));
}

#[test]
fn cancel_before_acknowledgement_is_allowed() {
    let state = step(&OrderState::New, &OrderEvent::Cancelled).unwrap();
    assert_eq!(state.name(), "CANCELLED");
    assert_eq!(state.filled(), Qty::zero());
}

#[test]
fn cancel_after_partial_fill_retains_filled_quantity() {
    let state = OrderState::PartiallyFilled { broker_id: broker(), filled: qty(40), cost: money("400") };
    let cancelled = step(&state, &OrderEvent::Cancelled).unwrap();
    assert_eq!(cancelled.name(), "CANCELLED");
    assert_eq!(cancelled.filled(), qty(40));
    assert_eq!(cancelled.cost(), money("400"));
}

#[test]
fn a_fill_may_not_exceed_the_ordered_quantity() {
    let state = OrderState::PartiallyFilled { broker_id: broker(), filled: qty(90), cost: money("900") };
    assert_eq!(
        step(&state, &OrderEvent::Fill { qty: qty(20), px: px("10") }),
        Err(TransitionError::Overfill { fill: 20, total: 110, ordered: 100 })
    );
}

#[test]
fn an_empty_fill_is_rejected_rather_than_ignored() {
    let state = OrderState::Acknowledged { broker_id: broker() };
    assert_eq!(
        step(&state, &OrderEvent::Fill { qty: Qty::zero(), px: px("10") }),
        Err(TransitionError::EmptyFill)
    );
}

#[test]
fn a_fill_on_a_terminal_order_is_an_error_not_a_warning() {
    let filled = OrderState::Filled { filled: qty(ORDERED), cost: money("1000") };
    assert_eq!(
        step(&filled, &OrderEvent::Fill { qty: qty(1), px: px("10") }),
        Err(TransitionError::Illegal { state: "FILLED", event: "a fill" })
    );
}

#[test]
fn terminal_states_are_reported_as_terminal() {
    for state in all_states() {
        let expected = matches!(state.name(), "FILLED" | "CANCELLED" | "REJECTED");
        assert_eq!(state.is_terminal(), expected, "{}", state.name());
    }
}

#[test]
fn a_fill_before_the_acknowledgement_names_both_sides() {
    assert_eq!(
        step(&OrderState::New, &OrderEvent::Fill { qty: qty(1), px: px("10") }),
        Err(TransitionError::Illegal { state: "NEW", event: "a fill" })
    );
    assert_eq!(
        step(&OrderState::Acknowledged { broker_id: broker() }, &OrderEvent::Rejected { reason: RejectReason::ExceedsSizeLimit }),
        Err(TransitionError::Illegal { state: "ACKNOWLEDGED", event: "a rejection" })
    );
}

#[test]
fn terminal_orders_drop_the_broker_id() {
    let done = step(
        &OrderState::Acknowledged { broker_id: broker() },
        &OrderEvent::Fill { qty: qty(ORDERED), px: px("10") },
    )
    .unwrap();
    assert_eq!(done.broker_id(), None);
}
