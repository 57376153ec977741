use ptc::broker::{FeeSchedule, FillPolicy};
use ptc::command::Command;
use ptc::dto::{order_view, portfolio_view, CreateParticipant, Execute, LeaderboardView, MarkUpdate, SubmitOrder};
use ptc::engine::EngineError;
use ptc::ids::{ParticipantId, Symbol};
use ptc::instrument::InstrumentSpec;
use ptc::money::{Money, Px, Qty};
use ptc::problem::AppError;
use ptc::service::App;
use ptc::store::{EventLog, InMemoryLog};
use ptc::time::{Timestamp, TradingDay};

fn at(n: i64) -> Timestamp {
    Timestamp::from_millis(n)
}

fn app() -> App<InMemoryLog> {
    App::open(InMemoryLog::new(), 42, FillPolicy::Complete, FeeSchedule::free(), vec![], at(0)).unwrap()
}

fn create(app: &mut App<InMemoryLog>, id: &str, cash: &str) {
    let cmd = CreateParticipant { id: id.to_string(), starting_cash: cash.to_string() }.command().unwrap();
    app.execute(at(1), cmd).unwrap();
}

fn submit(app: &mut App<InMemoryLog>, who: &str, side: &str, qty: i64, px: &str) -> u64 {
    let id = app.mint_order_id().unwrap();
    let req = SubmitOrder {
        participant: who.to_string(),
        symbol: "AAPL".to_string(),
        side: side.to_string(),
        qty,
        limit_px: px.to_string(),
    };
    app.execute(at(2), req.command(id).unwrap()).unwrap();
    id.get()
}

#[test]
fn a_competition_runs_end_to_end_through_the_application() {
    let mut a = app();
    create(&mut a, "alice", "100000");
    create(&mut a, "bob", "100000");
    let id = submit(&mut a, "alice", "buy", 100, "10");
    a.execute(at(3), Execute { client_order_id: id, qty: None, px: None }.command().unwrap()).unwrap();

    let e = a.engine();
    let cloid = ptc::ids::ClientOrderId::new(id);
    let view = order_view(e.order(cloid).unwrap(), e.fee_of(cloid), e.broker_id_of(cloid));
    assert_eq!(view.state, "FILLED");
    assert_eq!(view.filled_qty, 100);
    assert_eq!(view.filled_cost, "1000.0000");
    assert_eq!(view.fees, "0.0000");
    assert_eq!(view.broker_order_id, None, "terminal orders drop the broker id");

    let mark = MarkUpdate { symbol: "AAPL".to_string(), px: "12".to_string() }.command().unwrap();
    a.execute(at(4), mark).unwrap();

    let e = a.engine();
    let alice = ParticipantId::parse("alice").unwrap();
    let p = portfolio_view(e.portfolio(&alice).unwrap(), e.marks(), vec![]);
    assert_eq!(p.cash, "99000.0000");
    assert_eq!(p.fees_paid, "0.0000");
    assert_eq!(p.positions[0].qty, 100);
    assert_eq!(p.positions[0].avg_price.as_deref(), Some("10.0000"));
    assert_eq!(p.unrealized_pnl.as_deref(), Some("200.0000"));
    assert_eq!(p.total_value.as_deref(), Some("100200.0000"));

    let day = TradingDay::parse("2026-08-28").unwrap();
    a.execute(at(5), Command::CloseDay { day }).unwrap();
    let board = LeaderboardView::new(&a.engine().leaderboard(day).unwrap());
    assert_eq!(board.day, "2026-08-28");
    assert_eq!(board.ranked_by, "dailyReturn descending");
    assert_eq!(board.rows[0].participant, "alice");
    assert!(board.rows[0].active);
}

#[test]
fn a_refused_command_is_reported_and_changes_nothing() {
    let mut a = app();
    create(&mut a, "alice", "100");
    let seq = a.engine().seq();
    let id = a.mint_order_id().unwrap();
    let req = SubmitOrder {
        participant: "alice".to_string(),
        symbol: "AAPL".to_string(),
        side: "buy".to_string(),
        qty: 100,
        limit_px: "10".to_string(),
    };
    match a.execute(at(2), req.command(id).unwrap()) {
        Err(AppError::Engine(EngineError::InsufficientAvailableCash { need, available })) => {
            assert_eq!(need.render(), "1000.0000");
            assert_eq!(available.render(), "100.0000");
        }
        other => panic!("unexpected {other:?}"),
    }
    assert_eq!(a.engine().seq(), seq);
    assert_eq!(a.events_after(None).unwrap().len() as u64, seq);
}

#[test]
fn events_are_durable_before_they_are_visible() {
    let mut a = app();
    create(&mut a, "alice", "100000");
    let logged = a.events_after(None).unwrap();
    assert_eq!(logged.len(), 1);
    assert_eq!(logged[0].seq, a.engine().seq());
    assert_eq!(a.events_after(Some(1)).unwrap().len(), 0);
}

#[test]
fn a_reopened_log_continues_where_it_left_off() {
    let mut a = app();
    create(&mut a, "alice", "100000");
    submit(&mut a, "alice", "buy", 10, "10");
    submit(&mut a, "alice", "buy", 10, "10");
    let entries = a.events_after(None).unwrap();
    let mut log = InMemoryLog::new();
    log.append(&entries).unwrap();
    let mut b = App::open(log, 42, FillPolicy::Complete, FeeSchedule::free(), vec![], at(9)).unwrap();
    assert_eq!(b.engine().seq(), a.engine().seq());
    assert_eq!(b.mint_order_id().unwrap().get(), 3);
}

#[test]
fn a_reset_restores_the_boot_world() {
    let seed = InstrumentSpec::permissive(Symbol::parse("AAPL").unwrap());
    let mut a = App::open(InMemoryLog::new(), 7, FillPolicy::Partial { max_slices: 3 }, FeeSchedule { bps: 10 }, vec![seed], at(0)).unwrap();
    assert_eq!(a.engine().instruments().len(), 1);
    create(&mut a, "alice", "100000");
    let first = submit(&mut a, "alice", "buy", 10, "10");
    assert_eq!(first, 1);
    a.reset(at(10)).unwrap();
    assert_eq!(a.engine().participants().len(), 0);
    assert_eq!(a.engine().orders().len(), 0);
    assert_eq!(a.engine().instruments().len(), 1, "seeds are listed afresh");
    create(&mut a, "alice", "100000");
    let again = submit(&mut a, "alice", "buy", 10, "10");
    assert_eq!(again, 1, "ids restart at one");
    let cloid = ptc::ids::ClientOrderId::new(again);
    assert_eq!(a.engine().broker_id_of(cloid).map(|b| b.get()), Some(1), "the reborn broker mints from one");
}

#[test]
fn seeds_do_not_fight_a_registry_already_in_the_log() {
    let listed = InstrumentSpec::new(Symbol::parse("MSFT").unwrap(), Px::parse("0.01").unwrap(), Qty::one(), None).unwrap();
    let mut a = App::open(InMemoryLog::new(), 1, FillPolicy::Complete, FeeSchedule::free(), vec![listed], at(0)).unwrap();
    let entries = a.events_after(None).unwrap();
    let mut log = InMemoryLog::new();
    log.append(&entries).unwrap();
    let seed = InstrumentSpec::permissive(Symbol::parse("AAPL").unwrap());
    let b = App::open(log, 1, FillPolicy::Complete, FeeSchedule::free(), vec![seed], at(1)).unwrap();
    let names: Vec<String> = b.engine().instruments().iter().map(|s| s.symbol.render()).collect();
    assert_eq!(names, vec!["MSFT".to_string()]);
    assert!(a.mint_order_id().is_ok());
}

#[test]
fn a_cash_amount_of_zero_is_refused_as_a_bad_request() {
    let req = CreateParticipant { id: "alice".to_string(), starting_cash: "0".to_string() };
    assert!(matches!(req.command(), Err(AppError::BadRequest(_))));
    let req = CreateParticipant { id: "alice".to_string(), starting_cash: "abc".to_string() };
    assert!(matches!(req.command(), Err(AppError::Domain(_))));
    let ok = CreateParticipant { id: "alice".to_string(), starting_cash: "10".to_string() }.command().unwrap();
    match ok {
        Command::CreateParticipant { participant, starting_cash } => {
            assert_eq!(participant.as_str(), "alice");
            assert_eq!(starting_cash, Money::parse("10").unwrap());
        }
        other => panic!("unexpected {other:?}"),
    }
}

#[test]
fn resuming_from_a_journal_replays_it_and_lists_seeds_only_into_an_empty_registry() {
    let mut a = app();
    create(&mut a, "alice", "100000");
    let journal = a.events_after(None).unwrap();

    let seed = InstrumentSpec::permissive(Symbol::parse("AAPL").unwrap());
    let b = App::resume(InMemoryLog::new(), journal.clone(), 42, FillPolicy::Complete, FeeSchedule::free(), vec![seed.clone()], at(9))
        .unwrap();
    assert_eq!(b.engine().participants().len(), 1);
    assert_eq!(b.engine().instruments().len(), 1, "an empty registry takes the seeds");
    assert_eq!(b.engine().seq(), journal.len() as u64 + 1);

    let mut twice = journal.clone();
    twice.extend(journal.clone());
    let refused = App::resume(InMemoryLog::new(), twice, 42, FillPolicy::Complete, FeeSchedule::free(), vec![seed], at(9));
    assert!(matches!(refused, Err(AppError::Engine(_))), "a journal that does not replay is refused");
}

#[test]
fn the_last_sequence_number_is_that_of_the_last_entry() {
    let mut a = app();
    assert_eq!(ptc::store::last_seq_of(&a.events_after(None).unwrap()), 0);
    create(&mut a, "alice", "100000");
    create(&mut a, "bob", "100000");
    let all = a.events_after(None).unwrap();
    assert_eq!(ptc::store::last_seq_of(&all), all.last().unwrap().seq);
    assert_eq!(ptc::store::last_seq_of(&all), a.engine().seq());
}

#[test]
fn every_fill_carries_the_venues_exec_id() {
    let mut a = app();
    create(&mut a, "alice", "100000");
    let id = submit(&mut a, "alice", "buy", 100, "10");

    // One explicit, one auto: both are booked at the venue, one id sequence.
    a.execute(at(3), Execute { client_order_id: id, qty: Some(40), px: Some("10".to_string()) }.command().unwrap())
        .unwrap();
    a.execute(at(4), Execute { client_order_id: id, qty: None, px: None }.command().unwrap()).unwrap();

    let cloid = ptc::ids::ClientOrderId::new(id);
    let rows = a.engine().executions_of(cloid);
    assert_eq!(rows.len(), 2);
    assert_eq!(rows[0].exec_id.get(), 1);
    assert_eq!(rows[0].qty.get(), 40);
    assert_eq!(rows[1].exec_id.get(), 2);
    assert_eq!(rows.iter().map(|r| r.qty.get()).sum::<i64>(), 100, "the blotter must reconcile to the order");
    assert_eq!(a.engine().all_executions().len(), 2);

    assert!(a.engine().order(ptc::ids::ClientOrderId::new(999)).is_err());
    assert!(a.engine().executions_of(ptc::ids::ClientOrderId::new(999)).is_empty());

    // Replay rebuilds the tape from the journal.
    let journal = a.events_after(None).unwrap();
    let b = App::resume(InMemoryLog::new(), journal, 42, FillPolicy::Complete, FeeSchedule::free(), vec![], at(9)).unwrap();
    assert_eq!(b.engine().executions_of(cloid), rows);
}
