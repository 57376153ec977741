use ptc::ids::{ParticipantId, Symbol};

#[test]
fn accepts_canonical_identifiers() {
    assert_eq!(ParticipantId::parse("alice_01").unwrap().as_str(), "alice_01");
    assert_eq!(Symbol::parse("AAPL").unwrap().as_str(), "AAPL");
    assert_eq!(Symbol::parse("BRK.B").unwrap().as_str(), "BRK.B");
}

#[test]
fn rejects_non_canonical_symbols_rather_than_normalising() {
    assert!(Symbol::parse("aapl").is_err());
    assert!(Symbol::parse("Aapl").is_err());
}

#[test]
fn rejects_empty_oversized_and_illegal_characters() {
    assert!(ParticipantId::parse("").is_err());
    assert!(ParticipantId::parse(&"a".repeat(65)).is_err());
    assert!(ParticipantId::parse("alice smith").is_err());
    assert!(ParticipantId::parse("alice@example.com").is_err());
    assert!(Symbol::parse("").is_err());
}

#[test]
fn participant_ids_form_a_total_order() {
    let mut ids: Vec<_> = ["carol", "alice", "bob"]
        .iter()
        .map(|s| ParticipantId::parse(s).unwrap())
        .collect();
    ids.sort();
    let sorted: Vec<_> = ids.iter().map(|i| i.as_str()).collect();
    assert_eq!(sorted, ["alice", "bob", "carol"]);
}

#[test]
fn the_id_order_is_the_one_the_ranking_uses() {
    let a = ParticipantId::parse("alice").unwrap();
    let b = ParticipantId::parse("bob").unwrap();
    assert!(a.precedes(&b));
    assert!(!b.precedes(&a));
    assert!(!a.precedes(&a));
    assert!(a.same(&ParticipantId::parse("alice").unwrap()));
}

#[test]
fn order_ids_render_as_plain_numbers() {
    assert_eq!(ptc::ids::ClientOrderId::new(42).render(), "42");
    assert_eq!(ptc::ids::BrokerOrderId::new(7).get(), 7);
}
