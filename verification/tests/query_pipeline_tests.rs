use contact_rank::query::DEFAULT_THRESHOLD;
use contact_rank::query::HeaderRole;
use contact_rank::query::plan_queries;
use contact_rank::query::primary_query;
use contact_rank::pipeline::process_headers;
use contact_rank::rank::format_contact;

#[test]
fn primary_query_over_one_own_address() {
    let own = vec!["me@example.com".to_string()];
    let q = primary_query(&own, "alice");
    assert_eq!(q.query, "(from:me@example.com) and to:alice");
    assert_eq!(q.roles, vec![HeaderRole::To, HeaderRole::Cc, HeaderRole::Bcc]);
}

#[test]
fn primary_query_joins_own_addresses_with_or() {
    let own = vec!["me@example.com".to_string(), "me2@other.org".to_string()];
    let q = primary_query(&own, "bob");
    assert_eq!(q.query, "(from:me@example.com or from:me2@other.org) and to:bob");
}

#[test]
fn a_low_count_appends_the_sender_scoped_query() {
    let own = vec!["me@example.com".to_string()];
    let q = primary_query(&own, "alice");
    let plan = plan_queries(q, 3, DEFAULT_THRESHOLD, "alice");
    assert_eq!(plan.len(), 2);
    assert_eq!(plan[0].query, "(from:me@example.com) and to:alice");
    assert_eq!(plan[0].roles, vec![HeaderRole::To, HeaderRole::Cc, HeaderRole::Bcc]);
    assert_eq!(plan[1].query, "from:alice");
    assert_eq!(plan[1].roles, vec![HeaderRole::From]);
}

#[test]
fn a_count_at_the_threshold_keeps_one_query() {
    let own = vec!["me@example.com".to_string()];
    let q = primary_query(&own, "alice");
    let plan = plan_queries(q, 10, DEFAULT_THRESHOLD, "alice");
    assert_eq!(plan.len(), 1);
}

#[test]
fn header_roles_name_their_fields() {
    assert_eq!(HeaderRole::To.field_name(), "to");
    assert_eq!(HeaderRole::Cc.field_name(), "cc");
    assert_eq!(HeaderRole::Bcc.field_name(), "bcc");
    assert_eq!(HeaderRole::From.field_name(), "from");
}

#[test]
fn one_harvested_header_end_to_end() {
    let headers = vec!["Alice Smith <alice@example.com>, bob@foo.com".to_string()];
    let ranked = process_headers(headers, "alice");
    assert_eq!(ranked.len(), 1);
    assert_eq!(ranked[0].address, "alice@example.com");
    assert_eq!(ranked[0].display_name, "Alice Smith");
    assert_eq!(format_contact(&ranked[0]), "Alice Smith\talice@example.com");
}

#[test]
fn two_stage_harvest_accumulates_counts() {
    let headers = vec![
        "Alice Smith <alice@example.com>, bob@foo.com".to_string(),
        "alice@example.com".to_string(),
        "Alice Smith <ALICE@example.com>".to_string(),
    ];
    let ranked = process_headers(headers, "alice");
    assert_eq!(ranked.len(), 1);
    assert_eq!(ranked[0].address, "alice@example.com");
    assert_eq!(ranked[0].display_name, "Alice Smith");
}
