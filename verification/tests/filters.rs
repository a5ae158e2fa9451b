use git_vdb::filter::{matches_filter, validate_filter, validate_path};
use git_vdb::{Condition, Error, Filter, Json, JsonNumber, MatchValue, PointId, Range};

fn key(value: f64) -> u64 {
    let value = if value == 0.0 { 0.0 } else { value };
    let bits = value.to_bits();
    if bits >> 63 == 1 {
        !bits
    } else {
        bits | (1 << 63)
    }
}

fn num(value: f64) -> Json {
    Json::Number(JsonNumber { key: key(value), text: value.to_string() })
}

fn text(value: &str) -> Json {
    Json::String(value.to_string())
}

fn object(members: Vec<(&str, Json)>) -> Vec<(String, Json)> {
    members.into_iter().map(|(k, v)| (k.to_string(), v)).collect()
}

fn field_match(key: &str, value: Json) -> Condition {
    Condition::Field { key: key.to_string(), matches: Some(MatchValue { value }), range: None }
}

fn id(value: &str) -> PointId {
    PointId::String(value.to_string())
}

#[test]
fn nested_qdrant_style_filter() {
    let payload = object(vec![
        ("meta", Json::Object(object(vec![("topic", text("rust"))]))),
        ("year", num(2026.0)),
    ]);
    let filter = Filter {
        must: vec![field_match("meta.topic", text("rust"))],
        must_not: vec![field_match("year", num(2025.0))],
        should: vec![],
    };
    assert!(matches_filter(&filter, &id("a"), &payload));
}

#[test]
fn empty_filter_matches_everything() {
    assert!(matches_filter(&Filter::default(), &id("a"), &Vec::new()));
}

#[test]
fn should_needs_one_match_when_present() {
    let payload = object(vec![("kind", text("guide"))]);
    let filter = Filter {
        must: vec![],
        should: vec![field_match("kind", text("note")), field_match("kind", text("guide"))],
        must_not: vec![],
    };
    assert!(matches_filter(&filter, &id("a"), &payload));
    let filter = Filter { must: vec![], should: vec![field_match("kind", text("note"))], must_not: vec![] };
    assert!(!matches_filter(&filter, &id("a"), &payload));
}

#[test]
fn ranges_compare_numbers_by_value() {
    let payload = object(vec![("year", num(2025.0)), ("name", text("x"))]);
    let within = Range { gte: Some(key(2025.0)), lt: Some(key(2026.0)), ..Range::default() };
    let cond = Condition::Field { key: "year".to_string(), matches: None, range: Some(within) };
    assert!(matches_filter(&Filter { must: vec![cond], ..Filter::default() }, &id("a"), &payload));
    let above = Range { gt: Some(key(2025.0)), ..Range::default() };
    let cond = Condition::Field { key: "year".to_string(), matches: None, range: Some(above) };
    assert!(!matches_filter(&Filter { must: vec![cond], ..Filter::default() }, &id("a"), &payload));
    let on_text = Range { gte: Some(key(0.0)), ..Range::default() };
    let cond = Condition::Field { key: "name".to_string(), matches: None, range: Some(on_text) };
    assert!(!matches_filter(&Filter { must: vec![cond], ..Filter::default() }, &id("a"), &payload));
    let negative = object(vec![("t", num(-3.5))]);
    let below_zero = Range { lt: Some(key(0.0)), gt: Some(key(-4.0)), ..Range::default() };
    let cond = Condition::Field { key: "t".to_string(), matches: None, range: Some(below_zero) };
    assert!(matches_filter(&Filter { must: vec![cond], ..Filter::default() }, &id("a"), &payload_or(negative)));
}

fn payload_or(p: Vec<(String, Json)>) -> Vec<(String, Json)> {
    p
}

#[test]
fn ids_membership_and_array_conditions() {
    let payload = object(vec![
        ("tags", Json::Array(vec![text("a"), num(1.0), Json::Null])),
        ("lang", text("rust")),
        ("document", text("The quick brown fox")),
    ]);
    let has = Condition::HasId { has_id: vec![PointId::UInt(7), id("x")] };
    assert!(matches_filter(&Filter { must: vec![has], ..Filter::default() }, &PointId::UInt(7), &payload));
    let has = Condition::HasId { has_id: vec![PointId::UInt(7)] };
    assert!(!matches_filter(&Filter { must: vec![has], ..Filter::default() }, &id("7"), &payload));
    let contains = Condition::FieldContains { key: "tags".to_string(), contains: num(1.0) };
    assert!(matches_filter(&Filter { must: vec![contains], ..Filter::default() }, &id("a"), &payload));
    let contains = Condition::FieldContains { key: "lang".to_string(), contains: text("rust") };
    assert!(!matches_filter(&Filter { must: vec![contains], ..Filter::default() }, &id("a"), &payload));
    let any = Condition::FieldIn { key: "lang".to_string(), any: vec![text("go"), text("rust")] };
    assert!(matches_filter(&Filter { must: vec![any], ..Filter::default() }, &id("a"), &payload));
    let none = Condition::FieldNotIn { key: "lang".to_string(), none: vec![text("go")] };
    assert!(matches_filter(&Filter { must: vec![none], ..Filter::default() }, &id("a"), &payload));
    let missing = Condition::FieldNotIn { key: "absent".to_string(), none: vec![text("go")] };
    assert!(!matches_filter(&Filter { must: vec![missing], ..Filter::default() }, &id("a"), &payload));
    let has_field = Condition::HasField { has_field: "document".to_string() };
    assert!(matches_filter(&Filter { must: vec![has_field], ..Filter::default() }, &id("a"), &payload));
}

#[test]
fn document_text_conditions() {
    let payload = object(vec![("document", text("The quick brown fox"))]);
    let sub = Condition::DocumentContains { document_contains: "brown".to_string() };
    assert!(matches_filter(&Filter { must: vec![sub], ..Filter::default() }, &id("a"), &payload));
    let sub = Condition::DocumentContains { document_contains: "Brown".to_string() };
    assert!(!matches_filter(&Filter { must: vec![sub], ..Filter::default() }, &id("a"), &payload));
    let re = Condition::DocumentRegex { document_regex: "q[a-z]+k".to_string() };
    assert!(matches_filter(&Filter { must: vec![re], ..Filter::default() }, &id("a"), &payload));
    let re = Condition::DocumentRegex { document_regex: "^fox".to_string() };
    assert!(!matches_filter(&Filter { must: vec![re], ..Filter::default() }, &id("a"), &payload));
    let re = Condition::DocumentRegex { document_regex: "(".to_string() };
    assert!(!matches_filter(&Filter { must: vec![re], ..Filter::default() }, &id("a"), &payload));
}

#[test]
fn nested_filters_evaluate_recursively() {
    let payload = object(vec![("n", num(1.0))]);
    let inner = Filter { must: vec![field_match("n", num(1.0))], ..Filter::default() };
    let outer = Filter { must_not: vec![Condition::Nested(inner)], ..Filter::default() };
    assert!(!matches_filter(&outer, &id("a"), &payload));
}

#[test]
fn malformed_filters_are_invalid() {
    let empty_path = Condition::HasField { has_field: "a..b".to_string() };
    assert!(matches!(validate_filter(&Filter { must: vec![empty_path], ..Filter::default() }), Err(Error::Invalid(_))));
    let no_values = Condition::FieldIn { key: "a".to_string(), any: vec![] };
    assert!(matches!(validate_filter(&Filter { should: vec![no_values], ..Filter::default() }), Err(Error::Invalid(_))));
    let not_scalar = Condition::FieldContains { key: "a".to_string(), contains: Json::Array(vec![]) };
    assert!(validate_filter(&Filter { must_not: vec![not_scalar], ..Filter::default() }).is_err());
    let bare = Condition::Field { key: "a".to_string(), matches: None, range: None };
    assert!(validate_filter(&Filter { must: vec![bare], ..Filter::default() }).is_err());
    let bad_regex = Condition::DocumentRegex { document_regex: "(".to_string() };
    assert!(validate_filter(&Filter { must: vec![bad_regex], ..Filter::default() }).is_err());
    let empty_ids = Condition::HasId { has_id: vec![] };
    let nested = Condition::Nested(Filter { must: vec![empty_ids], ..Filter::default() });
    assert!(validate_filter(&Filter { must: vec![nested], ..Filter::default() }).is_err());
    let empty_text = Condition::DocumentContains { document_contains: String::new() };
    assert!(validate_filter(&Filter { must: vec![empty_text], ..Filter::default() }).is_err());
    let good = Filter {
        must: vec![field_match("meta.topic", text("rust"))],
        should: vec![Condition::DocumentRegex { document_regex: "r.st".to_string() }],
        must_not: vec![Condition::HasId { has_id: vec![PointId::UInt(1)] }],
    };
    assert!(validate_filter(&good).is_ok());
    assert!(validate_path("a.b.c").is_ok());
    assert!(validate_path("").is_err());
    assert!(validate_path(".a").is_err());
    assert!(validate_path("a.").is_err());
}
