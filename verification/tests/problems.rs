use ptc::engine::EngineError;
use ptc::error::DomainError;
use ptc::ids::{ParticipantId, Symbol};
use ptc::lifecycle::TransitionError;
use ptc::money::Money;
use ptc::portfolio::PortfolioError;
use ptc::problem::{title, AppError, Member};
use ptc::scoring::ScoringError;
use ptc::time::TradingDay;

#[test]
fn an_illegal_transition_is_a_conflict_naming_the_current_state() {
    let p = AppError::Engine(EngineError::Transition(TransitionError::Illegal { state: "FILLED", event: "a cancellation" })).classify();
    assert_eq!(p.status, 409);
    assert_eq!(p.slug, "illegal-transition");
    assert_eq!(
        p.members,
        vec![
            ("currentState", Member::Text("FILLED".to_string())),
            ("attempted", Member::Text("a cancellation".to_string())),
        ]
    );
}

#[test]
fn refusals_carry_the_numbers_that_explain_them() {
    let p = AppError::Engine(EngineError::InsufficientAvailableCash {
        need: Money::parse("1000").unwrap(),
        available: Money::parse("100").unwrap(),
    })
    .classify();
    assert_eq!((p.status, p.slug), (422, "insufficient-cash"));
    assert_eq!(
        p.members,
        vec![("need", Member::Text("1000.0000".to_string())), ("available", Member::Text("100.0000".to_string()))]
    );
}

#[test]
fn unknown_things_are_404_and_duplicates_are_409() {
    let alice = ParticipantId::parse("alice").unwrap();
    let day = TradingDay::parse("2026-08-28").unwrap();
    assert_eq!(AppError::Engine(EngineError::UnknownParticipant(alice.clone())).classify().status, 404);
    assert_eq!(AppError::Engine(EngineError::UnknownOrder(ptc::ids::ClientOrderId::new(9))).classify().status, 404);
    assert_eq!(AppError::Engine(EngineError::DayNotClosed(day)).classify().status, 404);
    assert_eq!(AppError::Engine(EngineError::UnknownInstrument(Symbol::parse("TSLA").unwrap())).classify().slug, "unknown-instrument");
    let dup = AppError::Engine(EngineError::DuplicateParticipant(alice)).classify();
    assert_eq!((dup.status, dup.slug), (409, "duplicate-participant"));
    assert!(dup.members.is_empty());
}

#[test]
fn a_missing_mark_and_an_instrument_in_use_say_which_and_how_much() {
    let aapl = Symbol::parse("AAPL").unwrap();
    let p = AppError::Engine(EngineError::Portfolio(PortfolioError::MissingMark { symbol: aapl.clone() })).classify();
    assert_eq!((p.status, p.slug), (409, "missing-mark"));
    assert_eq!(p.members, vec![("symbol", Member::Text("AAPL".to_string()))]);
    let q = AppError::Engine(EngineError::InstrumentInUse { symbol: aapl, working_orders: 0, positions: 1 }).classify();
    assert_eq!((q.status, q.slug), (409, "instrument-in-use"));
    assert_eq!(q.members[2], ("positions", Member::Count(1)));
}

#[test]
fn bad_input_is_400_and_what_is_not_the_callers_fault_is_500() {
    assert_eq!(AppError::BadRequest("x".to_string()).classify().slug, "malformed-request");
    assert_eq!(AppError::Domain(DomainError::NegativeQty(-1)).classify().status, 400);
    let internal = AppError::Engine(EngineError::Domain(DomainError::Overflow("notional"))).classify();
    assert_eq!((internal.status, internal.slug), (500, "internal"));
    let day = TradingDay::parse("2026-08-28").unwrap();
    assert_eq!(AppError::Engine(EngineError::Scoring(ScoringError::NoParticipants { day })).classify().slug, "cannot-rank");
    let late = AppError::Engine(EngineError::DayOutOfOrder { day, latest: TradingDay::parse("2026-08-29").unwrap() }).classify();
    assert_eq!(late.members[1], ("latestClosed", Member::Text("2026-08-29".to_string())));
}

#[test]
fn a_slug_reads_as_a_title() {
    assert_eq!(title("illegal-transition"), "illegal transition");
    assert_eq!(title("internal"), "internal");
}
