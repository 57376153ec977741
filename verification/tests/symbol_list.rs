use ptc::error::DomainError;
use ptc::instrument::parse_symbol_list;

fn names(text: &str) -> Vec<String> {
    parse_symbol_list(text).unwrap().iter().map(|s| s.as_str().to_owned()).collect()
}

#[test]
fn a_symbol_list_is_trimmed_sorted_and_deduplicated() {
    assert_eq!(names(" MSFT, AAPL ,,AAPL,BRK.B "), vec!["AAPL", "BRK.B", "MSFT"]);
}

#[test]
fn an_empty_or_blank_symbol_list_lists_nothing() {
    assert!(names("").is_empty());
    assert!(names(" , ,\t").is_empty());
}

#[test]
fn the_first_bad_item_refuses_the_whole_symbol_list() {
    match parse_symbol_list("AAPL, msft ,bad!") {
        Err(DomainError::ParseIdent { field, input, .. }) => {
            assert_eq!(field, "symbol");
            assert_eq!(input, "msft");
        }
        other => panic!("expected a refusal, got {other:?}"),
    }
}
