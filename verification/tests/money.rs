use ptc::error::DomainError;
use ptc::money::{Money, Px, Qty};

#[test]
fn parses_and_renders_with_full_precision() {
    assert_eq!(Money::parse("0").unwrap().raw(), 0);
    assert_eq!(Money::parse("1").unwrap().raw(), 10_000);
    assert_eq!(Money::parse("1.5").unwrap().raw(), 15_000);
    assert_eq!(Money::parse("10.0050").unwrap().raw(), 100_050);
    assert_eq!(Money::parse("-2.25").unwrap().raw(), -22_500);
    assert_eq!(Money::from_raw(100_050).render(), "10.0050");
    assert_eq!(Money::from_raw(-22_500).render(), "-2.2500");
    assert_eq!(Money::zero().render(), "0.0000");
}

#[test]
fn rejects_excess_precision_rather_than_truncating() {
    assert!(matches!(
        Money::parse("1.23456"),
        Err(DomainError::TooManyDecimals { max: 4, .. })
    ));
}

#[test]
fn rejects_ambiguous_input_rather_than_guessing() {
    for bad in ["", "   ", ".5", "1.", "1.2.3", "abc", "1 2", "1,5", "--1"] {
        assert!(Money::parse(bad).is_err(), "should have rejected {bad:?}");
    }
}

#[test]
fn price_and_quantity_reject_impossible_values() {
    assert!(matches!(Px::from_raw(0), Err(DomainError::NonPositivePx(0))));
    assert!(matches!(Px::parse("-1"), Err(DomainError::UnexpectedSign { .. })));
    assert!(matches!(Qty::new(-1), Err(DomainError::NegativeQty(-1))));
    assert_eq!(Qty::new(0).unwrap(), Qty::zero());
}

#[test]
fn notional_is_exact_at_sub_cent_prices() {
    let px = Px::parse("10.0050").unwrap();
    let notional = px.notional(Qty::new(3).unwrap()).unwrap();
    assert_eq!(notional, Money::parse("30.0150").unwrap());
    assert_eq!(notional.render(), "30.0150");
}

#[test]
fn overflow_is_an_error_not_a_wrap() {
    let px = Px::from_raw(i64::MAX).unwrap();
    assert!(matches!(
        px.notional(Qty::new(2).unwrap()),
        Err(DomainError::Overflow("notional"))
    ));
    assert!(matches!(
        Money::from_raw(i64::MAX).checked_add(Money::from_raw(1)),
        Err(DomainError::Overflow("cash addition"))
    ));
}

#[test]
fn quantity_cannot_go_short() {
    let held = Qty::new(100).unwrap();
    assert_eq!(held.checked_sub(Qty::new(100).unwrap()).unwrap(), Qty::zero());
    assert!(matches!(
        held.checked_sub(Qty::new(101).unwrap()),
        Err(DomainError::NegativeQty(-1))
    ));
}

#[test]
fn extreme_values_format_without_panicking() {
    assert!(Money::from_raw(i64::MIN).render().starts_with('-'));
}

#[test]
fn display_then_parse_round_trips_on_sampled_values() {
    for raw in [0i64, 1, -1, 9_999, 10_000, -10_001, 123_456_789, i64::MAX / 2, i64::MIN / 2] {
        let cash = Money::from_raw(raw);
        assert_eq!(Money::parse(&cash.render()).unwrap(), cash);
    }
}

#[test]
fn parse_errors_name_the_field_and_the_input() {
    match Px::parse("abc") {
        Err(DomainError::ParseDecimal { field, input }) => {
            assert_eq!(field, "price");
            assert_eq!(input, "abc");
        }
        other => panic!("unexpected {other:?}"),
    }
    assert!(matches!(Px::parse("0"), Err(DomainError::NonPositivePx(0))));
    assert!(matches!(
        Money::parse("99999999999999999"),
        Err(DomainError::Overflow("decimal parse"))
    ));
    assert_eq!(Money::parse("  +1.25 ").unwrap().raw(), 12_500);
}

#[test]
fn quantities_render_as_whole_shares() {
    assert_eq!(Qty::new(100).unwrap().render(), "100");
    assert_eq!(Px::parse("0.0001").unwrap().render(), "0.0001");
}
