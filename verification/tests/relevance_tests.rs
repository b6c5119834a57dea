use contact_rank::extract::AddressPair;
use contact_rank::relevance::contains_any;
use contact_rank::relevance::is_relevant;

fn pair(address: &str, display_name: &str) -> AddressPair {
    AddressPair { address: address.to_string(), display_name: display_name.to_string() }
}

#[test]
fn contains_any_lower_cases_the_needles() {
    let tests: Vec<&str> = vec!["ALI", "com"];
    assert!(contains_any("alice@example.com", &tests));
    let misses: Vec<&str> = vec!["ali", "xyz"];
    assert!(!contains_any("alice@example.com", &misses));
}

#[test]
fn contains_any_with_no_tests_matches() {
    let tests: Vec<&str> = Vec::new();
    assert!(contains_any("anything", &tests));
}

#[test]
fn matches_on_the_address() {
    assert!(is_relevant(&pair("alice.smith@x.com", ""), "alice smith"));
}

#[test]
fn matches_case_insensitively_on_the_display_name() {
    assert!(is_relevant(&pair("a1@x.com", "Alice Smith"), "alice"));
}

#[test]
fn rejects_when_a_token_is_nowhere() {
    assert!(!is_relevant(&pair("a1@x.com", "Alice"), "alice bob"));
}

#[test]
fn reply_addresses_are_never_relevant() {
    assert!(!is_relevant(&pair("noreply@shop.com", "Alice"), "alice"));
    assert!(!is_relevant(&pair("alice-reply@x.com", "Alice"), "alice"));
}
