use ptc::ids::{ParticipantId, Symbol};
use ptc::money::{Money, Px, Qty};
use ptc::order::Side;
use ptc::portfolio::{Fill, Marks, Portfolio, PortfolioError};
use ptc::position::PositionError;

fn sym() -> Symbol {
    Symbol::parse("AAPL").unwrap()
}
fn qty(n: i64) -> Qty {
    Qty::new(n).unwrap()
}
fn px(s: &str) -> Px {
    Px::parse(s).unwrap()
}
fn money(s: &str) -> Money {
    Money::parse(s).unwrap()
}

fn book(side: Side, n: i64, price: &str, fee: &str) -> Fill {
    Fill { symbol: sym(), side, qty: qty(n), px: px(price), fee: money(fee) }
}

fn open() -> Portfolio {
    Portfolio::open(ParticipantId::parse("alice").unwrap(), money("100000"))
}

fn marks_at(price: &str) -> Marks {
    let mut m = Marks::new();
    m.set(sym(), px(price));
    m
}

#[test]
fn a_full_trading_sequence_matches_hand_computed_figures() {
    let mut p = open();
    p.apply(&book(Side::Buy, 100, "10", "5")).unwrap();
    assert_eq!(p.cash(), money("98995"));
    assert_eq!(p.position(&sym()).unwrap().cost(), money("1005"));

    p.apply(&book(Side::Buy, 100, "12", "5")).unwrap();
    assert_eq!(p.cash(), money("97790"));
    assert_eq!(p.position(&sym()).unwrap().cost(), money("2210"));
    assert_eq!(p.position(&sym()).unwrap().avg_cost(), Some(px("11.05")));

    p.apply(&book(Side::Sell, 50, "15", "5")).unwrap();
    assert_eq!(p.realized_pnl(), money("192.50"));
    assert_eq!(p.cash(), money("98535"));
    assert_eq!(p.position(&sym()).unwrap().cost(), money("1657.50"));
    assert_eq!(p.position(&sym()).unwrap().avg_cost(), Some(px("11.05")));

    p.apply(&book(Side::Buy, 100, "8", "5")).unwrap();
    assert_eq!(p.cash(), money("97730"));
    assert_eq!(p.position(&sym()).unwrap().qty(), qty(250));
    assert_eq!(p.position(&sym()).unwrap().avg_cost(), Some(px("9.85")));

    let marks = marks_at("10");
    assert_eq!(p.market_value(&marks).unwrap(), money("2500"));
    assert_eq!(p.fees_paid(), money("20"));
    assert_eq!(p.unrealized_pnl(&marks).unwrap(), money("37.50"));
    assert_eq!(p.total_value(&marks).unwrap(), money("100230"));
}

#[test]
fn total_value_equals_starting_cash_plus_realized_plus_unrealized() {
    let mut p = open();
    for fill in [
        book(Side::Buy, 100, "10", "5"),
        book(Side::Buy, 100, "12", "5"),
        book(Side::Sell, 50, "15", "5"),
        book(Side::Buy, 100, "8", "5"),
    ] {
        p.apply(&fill).unwrap();
    }
    let marks = marks_at("10");
    let expected = p
        .starting_cash()
        .checked_add(p.realized_pnl())
        .unwrap()
        .checked_add(p.unrealized_pnl(&marks).unwrap())
        .unwrap();
    assert_eq!(p.total_value(&marks).unwrap(), expected);
}

#[test]
fn a_held_symbol_with_no_mark_is_an_error_not_a_zero() {
    let mut p = open();
    p.apply(&book(Side::Buy, 100, "10", "0")).unwrap();
    assert_eq!(p.total_value(&Marks::new()), Err(PortfolioError::MissingMark { symbol: sym() }));
    assert_eq!(p.unrealized_pnl(&Marks::new()), Err(PortfolioError::MissingMark { symbol: sym() }));
}

#[test]
fn an_empty_book_values_at_its_cash_with_no_marks_needed() {
    let p = open();
    assert_eq!(p.total_value(&Marks::new()).unwrap(), money("100000"));
    assert_eq!(p.positions().len(), 0);
}

#[test]
fn selling_what_is_not_held_is_rejected_and_changes_nothing() {
    let mut p = open();
    let before = p.clone();
    assert!(matches!(
        p.apply(&book(Side::Sell, 1, "10", "0")),
        Err(PortfolioError::Position(PositionError::InsufficientPosition { .. }))
    ));
    assert_eq!(p, before, "a rejected fill must leave the book untouched");
}

#[test]
fn a_buy_beyond_available_cash_is_rejected_and_changes_nothing() {
    let mut p = Portfolio::open(ParticipantId::parse("bob").unwrap(), money("100"));
    let before = p.clone();
    assert_eq!(
        p.apply(&book(Side::Buy, 100, "10", "0")),
        Err(PortfolioError::InsufficientCash { need: money("1000"), have: money("100") })
    );
    assert_eq!(p, before);
}

#[test]
fn a_closed_position_stops_being_a_current_position() {
    let mut p = open();
    p.apply(&book(Side::Buy, 100, "10", "0")).unwrap();
    assert_eq!(p.positions().len(), 1);
    p.apply(&book(Side::Sell, 100, "11", "0")).unwrap();
    assert_eq!(p.positions().len(), 0);
    assert_eq!(p.position(&sym()), None);
    assert_eq!(p.realized_pnl(), money("100"));
    assert_eq!(p.total_value(&Marks::new()).unwrap(), money("100100"));
}

#[test]
fn positions_iterate_in_a_deterministic_order() {
    let mut p = open();
    for s in ["MSFT", "AAPL", "TSLA"] {
        p.apply(&Fill {
            symbol: Symbol::parse(s).unwrap(),
            side: Side::Buy,
            qty: qty(1),
            px: px("10"),
            fee: Money::zero(),
        })
        .unwrap();
    }
    let held = p.positions();
    let order: Vec<_> = held.iter().map(|x| x.symbol().as_str()).collect();
    assert_eq!(order, ["AAPL", "MSFT", "TSLA"]);
}

#[test]
fn marks_list_in_symbol_order_and_a_reset_mark_replaces_the_old() {
    let mut m = Marks::new();
    m.set(Symbol::parse("TSLA").unwrap(), px("200"));
    m.set(sym(), px("10"));
    m.set(sym(), px("11"));
    let all = m.iter();
    assert_eq!(all.len(), 2);
    assert_eq!(all[0], (sym(), px("11")));
    assert_eq!(all[1].0.as_str(), "TSLA");
    assert_eq!(m.get(&sym()), Some(px("11")));
    assert_eq!(m.get(&Symbol::parse("MSFT").unwrap()), None);
}
