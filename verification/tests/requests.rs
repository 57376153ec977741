use ptc::command::Command;
use ptc::dto::{side, Execute, InstrumentBody, MarkUpdate, ReplaceOrder, SubmitOrder};
use ptc::error::DomainError;
use ptc::ids::ClientOrderId;
use ptc::order::Side;
use ptc::problem::AppError;

fn order(side: &str, qty: i64, px: &str, symbol: &str) -> SubmitOrder {
    SubmitOrder {
        participant: "alice".to_string(),
        symbol: symbol.to_string(),
        side: side.to_string(),
        qty,
        limit_px: px.to_string(),
    }
}

#[test]
fn malformed_input_is_rejected_rather_than_repaired() {
    let id = ClientOrderId::new(1);
    assert!(matches!(order("buy", 1, "10.123456", "AAPL").command(id), Err(AppError::Domain(DomainError::TooManyDecimals { .. }))));
    assert!(matches!(order("buy", 1, "abc", "AAPL").command(id), Err(AppError::Domain(DomainError::ParseDecimal { .. }))));
    assert!(matches!(order("buy", 1, "10", "aapl").command(id), Err(AppError::Domain(DomainError::ParseIdent { .. }))));
    match order("BUY", 1, "10", "AAPL").command(id) {
        Err(AppError::BadRequest(detail)) => assert!(detail.contains("buy")),
        other => panic!("unexpected {other:?}"),
    }
    assert!(matches!(order("buy", -1, "10", "AAPL").command(id), Err(AppError::Domain(DomainError::NegativeQty(-1)))));
}

#[test]
fn a_well_formed_submission_becomes_its_command() {
    match order("sell", 5, "10.5", "MSFT").command(ClientOrderId::new(9)).unwrap() {
        Command::SubmitOrder { id, participant, symbol, side, qty, limit_px } => {
            assert_eq!(id.get(), 9);
            assert_eq!(participant.as_str(), "alice");
            assert_eq!(symbol.as_str(), "MSFT");
            assert_eq!(side, Side::Sell);
            assert_eq!(qty.get(), 5);
            assert_eq!(limit_px.render(), "10.5000");
        }
        other => panic!("unexpected {other:?}"),
    }
}

#[test]
fn sides_are_exactly_buy_or_sell() {
    assert_eq!(side("buy").unwrap(), Side::Buy);
    assert_eq!(side("sell").unwrap(), Side::Sell);
    for bad in ["BUY", "Sell", "", "buy "] {
        assert!(matches!(side(bad), Err(AppError::BadRequest(_))), "{bad:?}");
    }
}

#[test]
fn half_a_manual_execution_is_refused() {
    let half = Execute { client_order_id: 3, qty: Some(5), px: None };
    assert!(matches!(half.command(), Err(AppError::BadRequest(_))));
    let auto = Execute { client_order_id: 3, qty: None, px: None };
    assert!(matches!(auto.command(), Ok(Command::AutoExecute { id }) if id.get() == 3));
    let manual = Execute { client_order_id: 3, qty: Some(5), px: Some("10".to_string()) };
    assert!(matches!(manual.command(), Ok(Command::Execute { id, qty, .. }) if id.get() == 3 && qty.get() == 5));
}

#[test]
fn a_replace_request_names_both_orders() {
    let r = ReplaceOrder { qty: 50, limit_px: "11".to_string() };
    match r.command(ClientOrderId::new(1), ClientOrderId::new(2)).unwrap() {
        Command::ReplaceOrder { id, replacement_id, qty, limit_px } => {
            assert_eq!((id.get(), replacement_id.get(), qty.get()), (1, 2, 50));
            assert_eq!(limit_px.render(), "11.0000");
        }
        other => panic!("unexpected {other:?}"),
    }
}

#[test]
fn a_batch_of_marks_with_one_bad_price_updates_nothing() {
    let good = MarkUpdate { symbol: "AAPL".to_string(), px: "12".to_string() };
    let bad = MarkUpdate { symbol: "MSFT".to_string(), px: "-1".to_string() };
    assert!(ptc::dto::mark_commands(&vec![good, bad]).is_err());
    let fine = vec![
        MarkUpdate { symbol: "AAPL".to_string(), px: "12".to_string() },
        MarkUpdate { symbol: "MSFT".to_string(), px: "20".to_string() },
    ];
    assert_eq!(ptc::dto::mark_commands(&fine).unwrap().len(), 2);
}

#[test]
fn instrument_terms_default_to_one_share_lots() {
    let body = InstrumentBody { tick: "0.01".to_string(), lot: None, max_order_qty: Some(500) };
    let spec = body.spec("AAPL").unwrap();
    assert_eq!(spec.tick.render(), "0.0100");
    assert_eq!(spec.lot.get(), 1);
    assert_eq!(spec.max_order_qty.map(|q| q.get()), Some(500));
    let zero_lot = InstrumentBody { tick: "0.01".to_string(), lot: Some(0), max_order_qty: None };
    assert!(matches!(zero_lot.spec("AAPL"), Err(AppError::Domain(DomainError::NonPositiveQty(0)))));
}

#[test]
fn a_refused_side_names_both_spellings_and_the_input_as_written() {
    match side("BUY") {
        Err(AppError::BadRequest(detail)) => assert_eq!(detail, r#"side must be "buy" or "sell", got "BUY""#),
        other => panic!("expected a refusal, got {other:?}"),
    }
}
