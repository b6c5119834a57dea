use contact_rank::aggregate::MailEntry;
use contact_rank::aggregate::retrieve_mail_entries;
use contact_rank::extract::AddressPair;
use contact_rank::rank::RankedContact;
use contact_rank::rank::format_contact;
use contact_rank::rank::rank;

fn pair(address: &str, display_name: &str) -> AddressPair {
    AddressPair { address: address.to_string(), display_name: display_name.to_string() }
}

#[test]
fn counts_relevant_occurrences_exactly() {
    let mails = vec![
        pair("alice@x.com", "Alice"),
        pair("bob@x.com", ""),
        pair("alice@x.com", ""),
        pair("alice@x.com", "Alice"),
    ];
    let entries = retrieve_mail_entries(mails, "x.com");
    assert_eq!(entries.len(), 2);
    assert_eq!(entries[0].address, "alice@x.com");
    assert_eq!(entries[0].count, 3);
    assert_eq!(entries[1].address, "bob@x.com");
    assert_eq!(entries[1].count, 1);
}

#[test]
fn irrelevant_pairs_are_not_aggregated() {
    let mails = vec![pair("alice@x.com", "Alice"), pair("carol@y.org", "Carol")];
    let entries = retrieve_mail_entries(mails, "alice");
    assert_eq!(entries.len(), 1);
    assert_eq!(entries[0].address, "alice@x.com");
}

#[test]
fn histogram_never_holds_an_empty_key() {
    let mails = vec![
        pair("alice@x.com", ""),
        pair("alice@x.com", "Alice"),
        pair("alice@x.com", ""),
    ];
    let entries = retrieve_mail_entries(mails, "alice");
    assert_eq!(entries.len(), 1);
    assert_eq!(entries[0].count, 3);
    assert_eq!(entries[0].display_names, vec![("Alice".to_string(), 1u64)]);
    for (key, _) in &entries[0].display_names {
        assert!(!key.is_empty());
    }
}

#[test]
fn ranks_by_count_descending() {
    let mails = vec![
        pair("one@x.com", ""),
        pair("three@x.com", ""),
        pair("two@x.com", ""),
        pair("three@x.com", ""),
        pair("two@x.com", ""),
        pair("three@x.com", ""),
    ];
    let entries = retrieve_mail_entries(mails, "x.com");
    let ranked = rank(entries);
    let addresses: Vec<String> = ranked.into_iter().map(|c: RankedContact| c.address).collect();
    assert_eq!(
        addresses,
        vec!["three@x.com".to_string(), "two@x.com".to_string(), "one@x.com".to_string()]
    );
}

#[test]
fn ties_keep_first_sighting_order() {
    let mails = vec![pair("b@x.com", ""), pair("a@x.com", ""), pair("b@x.com", ""), pair(
        "a@x.com",
        "",
    )];
    let entries = retrieve_mail_entries(mails, "x.com");
    let ranked = rank(entries);
    let addresses: Vec<String> = ranked.into_iter().map(|c: RankedContact| c.address).collect();
    assert_eq!(addresses, vec!["b@x.com".to_string(), "a@x.com".to_string()]);
}

#[test]
fn picks_the_most_frequent_display_name() {
    let mails = vec![
        pair("bob@x.com", "Bob X"),
        pair("bob@x.com", "Bob Y"),
        pair("bob@x.com", "Bob X"),
    ];
    let entries = retrieve_mail_entries(mails, "bob");
    let ranked = rank(entries);
    assert_eq!(ranked.len(), 1);
    assert_eq!(ranked[0].display_name, "Bob X");
}

#[test]
fn formats_with_and_without_a_display_name() {
    let with_name = RankedContact {
        address: "alice@example.com".to_string(),
        display_name: "Alice Smith".to_string(),
    };
    assert_eq!(format_contact(&with_name), "Alice Smith\talice@example.com");
    let bare = RankedContact { address: "bob@foo.com".to_string(), display_name: String::new() };
    assert_eq!(format_contact(&bare), "bob@foo.com");
}

#[test]
fn direct_entry_construction_ranks_deterministically() {
    let entries = vec![
        MailEntry {
            address: "low@x.com".to_string(),
            count: 1,
            display_names: Vec::new(),
        },
        MailEntry {
            address: "high@x.com".to_string(),
            count: 5,
            display_names: vec![("High".to_string(), 5u64)],
        },
    ];
    let ranked = rank(entries);
    assert_eq!(ranked[0].address, "high@x.com");
    assert_eq!(ranked[0].display_name, "High");
    assert_eq!(ranked[1].address, "low@x.com");
    assert_eq!(ranked[1].display_name, "");
}
