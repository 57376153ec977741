use ptc::broker::MockBroker;
use ptc::command::Command;
use ptc::engine::Engine;
use ptc::event::Event;
use ptc::ids::{BrokerOrderId, ClientOrderId, ExecutionId, ParticipantId, Symbol};
use ptc::lifecycle::RejectReason;
use ptc::money::{Money, Px, Qty};
use ptc::narrate::summary;
use ptc::order::Side;
use ptc::scoring::DayInput;
use ptc::time::{Timestamp, TradingDay};

#[test]
fn each_event_reads_as_a_sentence() {
    let alice = ParticipantId::parse("alice").unwrap();
    assert_eq!(
        summary(&Event::ParticipantCreated { participant: alice.clone(), starting_cash: Money::parse("100000").unwrap() }, None),
        "participant alice created with 100000.0000"
    );
    assert_eq!(
        summary(&Event::OrderAcknowledged { id: ClientOrderId::new(3), broker_id: BrokerOrderId::new(12) }, None),
        "cloid 3 acknowledged → oid 12"
    );
    assert_eq!(
        summary(&Event::OrderRejected { id: ClientOrderId::new(4), reason: RejectReason::PriceOffTick }, None),
        "cloid 4 REJECTED (PriceOffTick)"
    );
    assert_eq!(
        summary(&Event::MarkUpdated { symbol: Symbol::parse("AAPL").unwrap(), px: Px::parse("12").unwrap() }, None),
        "mark AAPL → 12.0000"
    );
    assert_eq!(
        summary(
            &Event::DayClosed {
                day: TradingDay::parse("2026-08-28").unwrap(),
                entries: vec![DayInput {
                    participant: alice,
                    closing_value: Money::zero(),
                    prior_closing_value: Money::zero(),
                    turnover: Money::zero(),
                    active: false,
                }],
            },
            None
        ),
        "day 2026-08-28 closed — 1 participants ranked"
    );
}

#[test]
fn a_fill_names_the_order_it_was_on() {
    let mut e = Engine::new(MockBroker::simple(0));
    let at = Timestamp::from_millis(0);
    e.execute(at, Command::CreateParticipant { participant: ParticipantId::parse("alice").unwrap(), starting_cash: Money::parse("1000").unwrap() }).unwrap();
    let journal = e
        .execute(
            at,
            Command::SubmitOrder {
                id: ClientOrderId::new(1),
                participant: ParticipantId::parse("alice").unwrap(),
                symbol: Symbol::parse("AAPL").unwrap(),
                side: Side::Buy,
                qty: Qty::new(10).unwrap(),
                limit_px: Px::parse("10").unwrap(),
            },
        )
        .unwrap();
    assert_eq!(e.narrate(&journal[0].event), "cloid 1: alice buy 10 AAPL @ 10.0000 submitted");
    let fill = Event::OrderFilled { id: ClientOrderId::new(1), exec_id: ExecutionId::new(3), qty: Qty::new(4).unwrap(), px: Px::parse("10").unwrap(), fee: Money::zero() };
    assert_eq!(e.narrate(&fill), "tid 3: fill 4 AAPL @ 10.0000 on cloid 1 (alice), fee 0.0000");
    let stray = Event::OrderFilled { id: ClientOrderId::new(9), exec_id: ExecutionId::new(4), qty: Qty::new(4).unwrap(), px: Px::parse("10").unwrap(), fee: Money::zero() };
    assert_eq!(e.narrate(&stray), "tid 4: fill 4 @ 10.0000 on cloid 9, fee 0.0000");
}
