use ptc::ids::Symbol;
use ptc::money::{Money, Px, Qty};
use ptc::position::{Position, PositionError};

fn sym() -> Symbol {
    Symbol::parse("AAPL").unwrap()
}
fn qty(n: i64) -> Qty {
    Qty::new(n).unwrap()
}
fn px(s: &str) -> Px {
    Px::parse(s).unwrap()
}
fn money(s: &str) -> Money {
    Money::parse(s).unwrap()
}

#[test]
fn buying_capitalises_the_fee_into_the_basis() {
    let mut p = Position::flat(sym());
    let outlay = p.buy(qty(100), px("10"), money("5")).unwrap();
    assert_eq!(outlay, money("1005"));
    assert_eq!(p.qty(), qty(100));
    assert_eq!(p.cost(), money("1005"));
    assert_eq!(p.avg_cost(), Some(px("10.05")));
}

#[test]
fn selling_expenses_the_fee_and_realizes_against_the_running_basis() {
    let mut p = Position::flat(sym());
    p.buy(qty(100), px("10"), money("0")).unwrap();
    let realized = p.sell(qty(40), px("12"), money("5")).unwrap();
    assert_eq!(realized.pnl, money("75"));
    assert_eq!(realized.proceeds_net, money("475"));
    assert_eq!(p.qty(), qty(60));
    assert_eq!(p.cost(), money("600"));
    assert_eq!(p.avg_cost(), Some(px("10")));
}

#[test]
fn selling_more_than_is_held_is_rejected() {
    let mut p = Position::flat(sym());
    p.buy(qty(10), px("10"), Money::zero()).unwrap();
    assert_eq!(
        p.sell(qty(11), px("12"), Money::zero()),
        Err(PositionError::InsufficientPosition { symbol: sym(), held: 10, sell: 11 })
    );
    assert_eq!(p.qty(), qty(10));
}

#[test]
fn closing_a_position_leaves_no_basis_behind() {
    let mut p = Position::flat(sym());
    p.buy(qty(3), px("10"), money("1")).unwrap();
    assert_eq!(p.cost(), money("31"));
    p.sell(qty(1), px("11"), Money::zero()).unwrap();
    assert_eq!(p.cost(), money("20.6667"));
    p.sell(qty(2), px("11"), Money::zero()).unwrap();
    assert!(p.is_flat());
    assert_eq!(p.cost(), Money::zero(), "residue left in a closed position");
}

#[test]
fn unrealized_is_market_value_less_basis() {
    let mut p = Position::flat(sym());
    p.buy(qty(100), px("10"), money("5")).unwrap();
    assert_eq!(p.market_value(px("12")).unwrap(), money("1200"));
    assert_eq!(p.unrealized(px("12")).unwrap(), money("195"));
    assert_eq!(p.unrealized(px("10")).unwrap(), money("-5"));
}

#[test]
fn a_flat_position_has_no_average() {
    assert_eq!(Position::flat(sym()).avg_cost(), None);
}

#[test]
fn a_buy_whose_basis_overflows_is_refused_with_the_quantity_already_added() {
    let mut p = Position::flat(Symbol::parse("AAPL").unwrap());
    let px = Px::from_raw(i64::MAX).unwrap();
    p.buy(Qty::new(1).unwrap(), px, Money::zero()).unwrap();
    let before = p.cost();
    assert!(p.buy(Qty::new(1).unwrap(), px, Money::zero()).is_err());
    assert_eq!(p.qty().get(), 2);
    assert_eq!(p.cost(), before);
}
