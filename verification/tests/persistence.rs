use ptc::broker::MockBroker;
use ptc::command::Command;
use ptc::engine::Engine;
use ptc::error::DomainError;
use ptc::event::{Event, Journaled};
use ptc::ids::{BrokerOrderId, ClientOrderId, ExecutionId, ParticipantId, Symbol};
use ptc::instrument::InstrumentSpec;
use ptc::lifecycle::RejectReason;
use ptc::money::{Money, Px, Qty};
use ptc::order::{NewOrder, Side};
use ptc::scoring::DayInput;
use ptc::store::{entries_after, EventLog, InMemoryLog};
use ptc::time::{Timestamp, TradingDay};
use ptc::wire::{journaled, WireDayInput, WireEvent, WireOrder};

fn who(n: &str) -> ParticipantId {
    ParticipantId::parse(n).unwrap()
}
fn sym(s: &str) -> Symbol {
    Symbol::parse(s).unwrap()
}
fn px(s: &str) -> Px {
    Px::parse(s).unwrap()
}
fn money(s: &str) -> Money {
    Money::parse(s).unwrap()
}
fn qty(n: i64) -> Qty {
    Qty::new(n).unwrap()
}
fn oid(n: u64) -> ClientOrderId {
    ClientOrderId::new(n)
}

fn terms(id: u64) -> NewOrder {
    NewOrder {
        id: oid(id),
        participant: who("alice"),
        symbol: sym("AAPL"),
        side: Side::Buy,
        qty: qty(100),
        limit_px: px("10.0050"),
        at: Timestamp::from_millis(5),
    }
}

/// One of every variant, so a new event without a mapping fails here.
fn every_event() -> Vec<Event> {
    vec![
        Event::ParticipantCreated { participant: who("alice"), starting_cash: money("100000") },
        Event::OrderSubmitted { order: terms(1) },
        Event::OrderAcknowledged { id: oid(1), broker_id: BrokerOrderId::new(7) },
        Event::OrderRejected { id: oid(2), reason: RejectReason::InsufficientCash },
        Event::OrderFilled { id: oid(1), exec_id: ExecutionId::new(1), qty: qty(40), px: px("10.0050"), fee: money("0.4002") },
        Event::OrderCancelled { id: oid(1) },
        Event::OrderReplaced { original: oid(1), replacement: terms(3) },
        Event::MarkUpdated { symbol: sym("MSFT"), px: px("20.1234") },
        Event::InstrumentUpserted {
            spec: InstrumentSpec::new(sym("AAPL"), px("0.01"), qty(1), Some(qty(500))).unwrap(),
        },
        Event::InstrumentRemoved { symbol: sym("TSLA") },
        Event::DayClosed {
            day: TradingDay::parse("2026-08-29").unwrap(),
            entries: vec![DayInput {
                participant: who("alice"),
                closing_value: money("100230"),
                prior_closing_value: money("100000"),
                turnover: money("2455.5"),
                active: true,
            }],
        },
    ]
}

fn journal(events: Vec<Event>) -> Vec<Journaled> {
    events
        .into_iter()
        .enumerate()
        .map(|(i, event)| Journaled { seq: i as u64 + 1, at: Timestamp::from_millis(1_000 + i as i64), event })
        .collect()
}

#[test]
fn every_event_variant_survives_a_round_trip_unchanged() {
    let entries = journal(every_event());
    for entry in &entries {
        let wire = WireEvent::from_event(&entry.event);
        let back = journaled(entry.seq, entry.at.as_millis(), wire).unwrap();
        assert_eq!(&back, entry);
    }
}

#[test]
fn re_appending_the_same_batch_is_a_no_op() {
    let entries = journal(every_event());
    let mut log = InMemoryLog::new();
    log.append(&entries).unwrap();
    log.append(&entries).unwrap();
    log.append(&entries[..3]).unwrap();
    assert_eq!(log.read_all().unwrap(), entries);
    assert_eq!(log.last_seq().unwrap(), entries.len() as u64);
}

#[test]
fn state_rebuilt_from_the_stored_log_matches_the_live_engine() {
    let mut live = Engine::new(MockBroker::simple(3));
    let mut log = InMemoryLog::new();
    let mut t = 0;
    let mut run = |e: &mut Engine<MockBroker>, l: &mut InMemoryLog, cmd: Command| {
        t += 1_000;
        let produced = e.execute(Timestamp::from_millis(t), cmd).unwrap();
        l.append(&produced).unwrap();
    };
    run(&mut live, &mut log, Command::CreateParticipant { participant: who("alice"), starting_cash: money("100000") });
    run(
        &mut live,
        &mut log,
        Command::SubmitOrder { id: oid(1), participant: who("alice"), symbol: sym("AAPL"), side: Side::Buy, qty: qty(100), limit_px: px("10.0050") },
    );
    run(&mut live, &mut log, Command::Execute { id: oid(1), qty: qty(40), px: px("10.0050") });
    run(&mut live, &mut log, Command::CancelOrder { id: oid(1) });
    run(&mut live, &mut log, Command::UpdateMark { symbol: sym("AAPL"), px: px("11.25") });

    // Through the stored shape, as a durable log would hold it.
    let stored: Vec<Journaled> = log
        .read_all()
        .unwrap()
        .iter()
        .map(|j| journaled(j.seq, j.at.as_millis(), WireEvent::from_event(&j.event)).unwrap())
        .collect();
    let rebuilt = Engine::replay(MockBroker::simple(4444), stored).unwrap();

    let a = live.portfolio(&who("alice")).unwrap();
    let b = rebuilt.portfolio(&who("alice")).unwrap();
    assert_eq!(a.cash(), b.cash());
    assert_eq!(a.realized_pnl(), b.realized_pnl());
    assert_eq!(a.total_value(live.marks()).unwrap(), b.total_value(rebuilt.marks()).unwrap());
    assert_eq!(a.position(&sym("AAPL")), b.position(&sym("AAPL")));
    assert_eq!(live.order(oid(1)).unwrap(), rebuilt.order(oid(1)).unwrap());
    assert_eq!(live.seq(), rebuilt.seq());
    assert_eq!(live.marks(), rebuilt.marks());
    assert_eq!(b.position(&sym("AAPL")).unwrap().cost(), money("400.2000"));
}

#[test]
fn a_late_batch_is_filed_in_sequence_order() {
    let entries = journal(every_event());
    let mut log = InMemoryLog::new();
    log.append(&entries[5..]).unwrap();
    log.append(&entries[..5]).unwrap();
    assert_eq!(log.read_all().unwrap(), entries);
    log.clear().unwrap();
    assert!(log.read_all().unwrap().is_empty());
    assert_eq!(log.last_seq().unwrap(), 0);
}

#[test]
fn a_stored_value_that_is_not_domain_data_is_refused() {
    let bad_order = WireEvent::OrderSubmitted {
        order: WireOrder {
            id: 1,
            participant: "alice".to_string(),
            symbol: "aapl".to_string(),
            side: ptc::wire::WireSide::Buy,
            qty: 10,
            limit_px: 100_000,
            submitted_at: 0,
        },
    };
    assert!(matches!(bad_order.into_event(), Err(DomainError::ParseIdent { field: "symbol", .. })));

    let bad_fill = WireEvent::OrderFilled { id: 1, exec_id: 1, qty: -1, px: 0, fee: 0 };
    assert_eq!(bad_fill.into_event(), Err(DomainError::NegativeQty(-1)));

    let bad_day = WireEvent::DayClosed { day: "2026-8-29".to_string(), entries: vec![] };
    assert_eq!(bad_day.into_event(), Err(DomainError::ParseDate("2026-8-29".to_string())));

    let bad_entry = WireEvent::DayClosed {
        day: "2026-08-29".to_string(),
        entries: vec![WireDayInput {
            participant: "bad id".to_string(),
            closing_value: 0,
            prior_closing_value: 0,
            turnover: 0,
            active: false,
        }],
    };
    assert!(matches!(bad_entry.into_event(), Err(DomainError::ParseIdent { field: "participant id", .. })));
}

#[test]
fn amounts_are_stored_as_raw_scaled_integers() {
    match WireEvent::from_event(&Event::OrderFilled { id: oid(1), exec_id: ExecutionId::new(1), qty: qty(40), px: px("10.0050"), fee: money("0.4002") }) {
        WireEvent::OrderFilled { id, qty, px, fee, .. } => {
            assert_eq!((id, qty, px, fee), (1, 40, 100_050, 4_002));
        }
        other => panic!("unexpected {other:?}"),
    }
}

#[test]
fn the_journal_after_a_sequence_number_keeps_the_later_entries_in_order() {
    let all = journal(vec![
        Event::MarkUpdated { symbol: sym("AAPL"), px: Px::parse("1").unwrap() },
        Event::MarkUpdated { symbol: sym("AAPL"), px: Px::parse("2").unwrap() },
        Event::MarkUpdated { symbol: sym("AAPL"), px: Px::parse("3").unwrap() },
    ]);
    let seqs = |v: Vec<Journaled>| v.iter().map(|j| j.seq).collect::<Vec<u64>>();
    assert_eq!(seqs(entries_after(&all, Some(1))), vec![2, 3]);
    assert_eq!(seqs(entries_after(&all, None)), vec![1, 2, 3]);
    assert!(entries_after(&all, Some(3)).is_empty());
    assert_eq!(entries_after(&all, Some(0)), all);
}

#[test]
fn a_close_of_a_year_past_9999_is_written_but_does_not_read_back() {
    let day = TradingDay::from_ymd(10000, 1, 1).unwrap();
    assert_eq!(day.render(), "+10000-01-01");
    let wire = WireEvent::from_event(&Event::DayClosed { day, entries: vec![] });
    assert!(matches!(wire.into_event(), Err(DomainError::ParseDate(_))));
}
