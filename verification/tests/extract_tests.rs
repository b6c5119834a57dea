use contact_rank::extract::AddressPair;
use contact_rank::extract::extract;

fn pairs_of(raw: &str) -> Vec<(String, String)> {
    extract(raw).into_iter().map(|p: AddressPair| (p.address, p.display_name)).collect()
}

#[test]
fn splits_a_two_entry_list() {
    let got = pairs_of("Alice Smith <alice@example.com>, bob@foo.com");
    assert_eq!(
        got,
        vec![
            ("alice@example.com".to_string(), "Alice Smith".to_string()),
            ("bob@foo.com".to_string(), String::new()),
        ]
    );
}

#[test]
fn does_not_split_on_comma_inside_quoted_name() {
    let got = pairs_of("\"Smith, Alice\" <a@b.co>, bob@foo.com");
    assert_eq!(
        got,
        vec![
            ("a@b.co".to_string(), "Smith, Alice".to_string()),
            ("bob@foo.com".to_string(), String::new()),
        ]
    );
}

#[test]
fn lower_cases_and_trims_the_address() {
    let got = pairs_of("Alice <ALICE@Example.COM>");
    assert_eq!(got, vec![("alice@example.com".to_string(), "Alice".to_string())]);
    for (addr, _) in &got {
        assert_eq!(addr, &addr.to_lowercase());
        assert_eq!(addr, addr.trim());
    }
}

#[test]
fn drops_a_display_name_that_holds_an_at_sign() {
    let got = pairs_of("bob@foo.com <bob@foo.com>");
    assert_eq!(got, vec![("bob@foo.com".to_string(), String::new())]);
}

#[test]
fn strips_quoting_characters_from_the_display_name() {
    let got = pairs_of("'Bob' <bob@foo.com>");
    assert_eq!(got, vec![("bob@foo.com".to_string(), "Bob".to_string())]);
}

#[test]
fn skips_an_address_without_a_local_part() {
    let got = pairs_of("<@foo.com>");
    assert_eq!(got, Vec::<(String, String)>::new());
}

#[test]
fn skips_group_addresses() {
    let got = pairs_of("my-peeps: foo@peeps.org, bar@peeps.org;");
    assert_eq!(got, Vec::<(String, String)>::new());
}

#[test]
fn empty_header_yields_no_pairs() {
    assert_eq!(pairs_of(""), Vec::<(String, String)>::new());
}
