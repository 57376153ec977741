use ptc::ids::ParticipantId;
use ptc::money::Money;
use ptc::scoring::{daily_results, ladder, leaderboard, Dec, DayInput, LadderRow, Leaderboard, ScoringError, RETURN_SCALE};
use ptc::time::TradingDay;
use rust_decimal::prelude::FromPrimitive;
use rust_decimal::Decimal;

fn who(n: &str) -> ParticipantId {
    ParticipantId::parse(n).unwrap()
}
fn money(s: &str) -> Money {
    Money::parse(s).unwrap()
}
fn day(s: &str) -> TradingDay {
    TradingDay::parse(s).unwrap()
}
fn dec(f: f64) -> Decimal {
    Decimal::from_f64(f).unwrap().round_dp(RETURN_SCALE)
}
fn num(d: &Dec) -> Decimal {
    Decimal::from_i128_with_scale(d.mantissa(), d.scale())
}

fn input(name: &str, close: &str, prior: &str, turnover: &str, active: bool) -> DayInput {
    DayInput {
        participant: who(name),
        closing_value: money(close),
        prior_closing_value: money(prior),
        turnover: money(turnover),
        active,
    }
}

fn board(d: &str, inputs: Vec<DayInput>) -> Leaderboard {
    leaderboard(day(d), daily_results(inputs).unwrap()).unwrap()
}

fn order_of(b: &Leaderboard) -> Vec<&str> {
    b.rows.iter().map(|r| r.result.participant.as_str()).collect()
}

fn worked_example() -> [Leaderboard; 2] {
    [
        board(
            "2026-08-28",
            vec![
                input("alice", "102000", "100000", "480000", true),
                input("bob", "102000", "100000", "95000", true),
                input("carol", "100000", "100000", "50000", true),
            ],
        ),
        board(
            "2026-08-29",
            vec![
                input("alice", "99960", "102000", "300000", true),
                input("bob", "101000", "102000", "60000", true),
                input("carol", "100000", "100000", "0", true),
            ],
        ),
    ]
}

fn row<'a>(l: &'a [LadderRow], n: &str) -> &'a LadderRow {
    l.iter().find(|r| r.participant.as_str() == n).unwrap()
}

#[test]
fn the_worked_example_day_one_breaks_a_tie_on_turnover() {
    let [d1, _] = worked_example();
    assert_eq!(order_of(&d1), ["bob", "alice", "carol"]);
    assert_eq!(num(&d1.rows[0].result.daily_return), dec(0.02));
    assert_eq!(num(&d1.rows[1].result.daily_return), dec(0.02));
    assert_eq!(d1.rows[0].result.daily_pnl, money("2000"));
}

#[test]
fn the_worked_example_day_two_is_won_by_the_unchanged_book() {
    let [_, d2] = worked_example();
    assert_eq!(order_of(&d2), ["carol", "bob", "alice"]);
    assert_eq!(num(&d2.rows[2].result.daily_return), dec(-0.02));
    assert_eq!(num(&d2.rows[1].result.daily_return), dec(-0.0098039216));
}

#[test]
fn the_worked_example_ladder_compounds_rather_than_sums() {
    let l = ladder(&worked_example()).unwrap();
    assert_eq!(num(&row(&l, "bob").cumulative_return), dec(0.01));
    assert_eq!(num(&row(&l, "carol").cumulative_return), Decimal::ZERO);
    assert_eq!(num(&row(&l, "alice").cumulative_return), dec(-0.0004));
    assert_eq!(l.iter().map(|r| r.participant.as_str()).collect::<Vec<_>>(), ["bob", "carol", "alice"]);
    assert_eq!(l.iter().map(|r| r.rank).collect::<Vec<_>>(), [Some(1), Some(2), Some(3)]);
    assert_eq!(row(&l, "bob").daily_wins, 1);
    assert_eq!(row(&l, "carol").daily_wins, 1);
    assert_eq!(row(&l, "alice").daily_wins, 0);
    assert_eq!((row(&l, "bob").points, row(&l, "carol").points, row(&l, "alice").points), (43, 40, 33));
}

#[test]
fn a_geometric_ladder_reports_the_loss_an_additive_one_would_hide() {
    let history = [
        board(
            "2026-08-28",
            vec![input("alice", "50000", "100000", "0", true), input("bob", "100000", "100000", "0", true)],
        ),
        board(
            "2026-08-29",
            vec![input("alice", "75000", "50000", "0", true), input("bob", "100000", "100000", "0", true)],
        ),
    ];
    let l = ladder(&history).unwrap();
    assert_eq!(num(&row(&l, "alice").cumulative_return), dec(-0.25));
    assert_eq!(l[0].participant.as_str(), "bob");
}

#[test]
fn ranking_is_invariant_to_input_order() {
    let make = |names: [&str; 3]| {
        board("2026-08-28", names.iter().map(|n| input(n, "100000", "100000", "0", true)).collect())
    };
    let a = make(["alice", "bob", "carol"]);
    let b = make(["carol", "alice", "bob"]);
    let c = make(["bob", "carol", "alice"]);
    assert_eq!(a, b);
    assert_eq!(b, c);
    assert_eq!(order_of(&a), ["alice", "bob", "carol"]);
}

#[test]
fn an_inactive_day_ranks_normally_at_zero_percent() {
    let b = board(
        "2026-08-28",
        vec![input("alice", "95000", "100000", "500000", true), input("bob", "100000", "100000", "0", false)],
    );
    assert_eq!(order_of(&b), ["bob", "alice"]);
    assert_eq!(num(&b.rows[0].result.daily_return), Decimal::ZERO);
    assert!(!b.rows[0].result.active);
}

#[test]
fn a_participant_who_never_traded_is_listed_but_never_placed() {
    let history = [board(
        "2026-08-28",
        vec![input("alice", "95000", "100000", "500000", true), input("ghost", "100000", "100000", "0", false)],
    )];
    let l = ladder(&history).unwrap();
    let ghost = row(&l, "ghost");
    assert!(!ghost.eligible);
    assert_eq!(ghost.rank, None, "an account that never traded cannot place");
    assert_eq!(num(&ghost.cumulative_return), Decimal::ZERO);
    assert_eq!(row(&l, "alice").rank, Some(1));
    assert_eq!(l.last().unwrap().participant.as_str(), "ghost");
}

#[test]
fn one_active_day_is_enough_to_be_eligible_forever_after() {
    let history = [
        board("2026-08-28", vec![input("alice", "100000", "100000", "10", true)]),
        board("2026-08-29", vec![input("alice", "100000", "100000", "0", false)]),
    ];
    let l = ladder(&history).unwrap();
    let r = &l[0];
    assert!(r.eligible);
    assert_eq!(r.active_days, 1);
    assert_eq!(r.rank, Some(1));
}

#[test]
fn a_wiped_out_participant_yields_zero_rather_than_an_infinity() {
    let results = daily_results(vec![input("alice", "0", "0", "0", true)]).unwrap();
    assert_eq!(num(&results[0].daily_return), Decimal::ZERO);
    assert!(results[0].bust);
}

#[test]
fn a_day_with_no_participants_or_a_repeated_one_is_rejected() {
    assert_eq!(
        leaderboard(day("2026-08-28"), vec![]),
        Err(ScoringError::NoParticipants { day: day("2026-08-28") })
    );
    assert_eq!(
        daily_results(vec![input("alice", "1", "1", "0", true), input("alice", "2", "1", "0", true)]),
        Err(ScoringError::DuplicateParticipant(who("alice")))
    );
}

#[test]
fn ladder_ties_fall_through_wins_then_active_days_then_id() {
    let history = [
        board(
            "2026-08-28",
            vec![input("alice", "100000", "100000", "500", true), input("bob", "100000", "100000", "100", true)],
        ),
        board(
            "2026-08-29",
            vec![input("alice", "100000", "100000", "500", true), input("bob", "100000", "100000", "100", true)],
        ),
    ];
    let l = ladder(&history).unwrap();
    assert_eq!(l[0].participant.as_str(), "bob");
    assert_eq!(l[0].daily_wins, 2);
    assert_eq!(l[1].daily_wins, 0);
}

#[test]
fn returns_render_every_place_of_their_scale() {
    let results = daily_results(vec![input("alice", "102000", "100000", "0", true)]).unwrap();
    let text = results[0].daily_return.render();
    assert_eq!(text.parse::<Decimal>().unwrap(), dec(0.02));
    assert_eq!(Dec::zero().render(), "0");
    assert_eq!(Dec::one().render(), "1");
}

#[test]
fn an_empty_history_has_an_empty_ladder() {
    assert!(ladder(&[]).unwrap().is_empty());
}

#[test]
fn a_return_shows_as_a_percentage_rounded_not_truncated() {
    let results = daily_results(vec![
        input("alice", "100141.69", "100000", "0", true),
        input("bob", "101000", "102000", "0", true),
    ])
    .unwrap();
    let alice = num(&results[0].daily_return.percent().unwrap());
    assert_eq!(alice, Decimal::from_i128_with_scale(1417, 4));
    let bob = num(&results[1].daily_return.percent().unwrap());
    assert_eq!(bob, Decimal::from_i128_with_scale(-9804, 4));
    assert_eq!(num(&Dec::one().percent().unwrap()), Decimal::ONE_HUNDRED);
}

#[test]
fn a_return_renders_with_its_sign_a_leading_zero_and_every_place() {
    let results = daily_results(vec![input("bob", "101000", "102000", "0", true)]).unwrap();
    assert_eq!(results[0].daily_return.render(), "-0.0098039216");
    assert_eq!(results[0].daily_return.percent().unwrap().render(), "-0.9804");
}
