use nodespace_core_logic::document::render_json;
use nodespace_core_logic::errors::{internal, invalid, not_found, DatabaseError, NodeSpaceError};
use nodespace_core_logic::model::{CalendarDate, JsonValue, Node, NodeId, NodeType};
use nodespace_core_logic::service::document_line;

fn obj(members: Vec<(&str, JsonValue)>) -> JsonValue {
    JsonValue::Object(members.into_iter().map(|(k, v)| (k.to_string(), v)).collect())
}

#[test]
fn node_id_new_is_hyphenated_uuid() {
    let a = NodeId::new();
    let b = NodeId::new();
    assert_eq!(a.as_str().len(), 36);
    assert_eq!(a.as_str().matches('-').count(), 4);
    assert!(a != b);
}

#[test]
fn node_id_from_string_keeps_text() {
    let id = NodeId::from_string("2024-06-15".to_string());
    assert_eq!(id.as_str(), "2024-06-15");
    assert!(id == id.clone_id());
}

#[test]
fn date_key_is_zero_padded() {
    let d = CalendarDate::from_ymd(2024, 6, 5).unwrap();
    assert_eq!(d.key(), "2024-06-05");
    let early = CalendarDate::from_ymd(7, 1, 31).unwrap();
    assert_eq!(early.key(), "0007-01-31");
}

#[test]
fn date_key_outside_four_digit_years() {
    assert_eq!(CalendarDate::from_ymd(12345, 12, 1).unwrap().key(), "+12345-12-01");
    assert_eq!(CalendarDate::from_ymd(-5, 3, 9).unwrap().key(), "-0005-03-09");
}

#[test]
fn from_ymd_checks_the_calendar() {
    assert!(CalendarDate::from_ymd(2023, 2, 29).is_none());
    assert!(CalendarDate::from_ymd(2024, 2, 29).is_some());
    assert!(CalendarDate::from_ymd(1900, 2, 29).is_none());
    assert!(CalendarDate::from_ymd(2000, 2, 29).is_some());
    assert!(CalendarDate::from_ymd(2024, 4, 31).is_none());
    assert!(CalendarDate::from_ymd(2024, 13, 1).is_none());
    assert!(CalendarDate::from_ymd(2024, 0, 1).is_none());
    assert!(CalendarDate::from_ymd(262142, 12, 31).is_some());
    assert!(CalendarDate::from_ymd(262143, 1, 1).is_none());
    assert!(CalendarDate::from_ymd(-262143, 1, 1).is_some());
    assert!(CalendarDate::from_ymd(-262144, 1, 1).is_none());
}

#[test]
fn distinct_days_have_distinct_keys() {
    let a = CalendarDate::from_ymd(2024, 1, 11).unwrap();
    let b = CalendarDate::from_ymd(2024, 11, 1).unwrap();
    assert_ne!(a.key(), b.key());
}

#[test]
fn json_get_finds_first_member() {
    let v = obj(vec![("a", JsonValue::Str("one".into())), ("a", JsonValue::Str("two".into()))]);
    match v.get("a") {
        Some(JsonValue::Str(s)) => assert_eq!(s, "one"),
        other => panic!("unexpected {:?}", other),
    }
    assert!(v.get("b").is_none());
    assert!(JsonValue::Str("x".into()).get("a").is_none());
}

#[test]
fn json_set_then_get_reads_the_write() {
    let mut v = JsonValue::Null;
    assert!(v.set_member("k".to_string(), JsonValue::Bool(true)));
    assert!(matches!(v.get("k"), Some(JsonValue::Bool(true))));
    assert!(v.set_member("k".to_string(), JsonValue::Bool(false)));
    assert!(matches!(v.get("k"), Some(JsonValue::Bool(false))));
    let mut s = JsonValue::Str("text".into());
    assert!(!s.set_member("k".to_string(), JsonValue::Null));
    assert!(matches!(s, JsonValue::Str(_)));
}

#[test]
fn json_remove_member_drops_every_copy() {
    let mut v = obj(vec![("a", JsonValue::Null), ("b", JsonValue::Null), ("a", JsonValue::Bool(true))]);
    v.remove_member("a");
    assert!(v.get("a").is_none());
    assert!(v.get("b").is_some());
}

#[test]
fn render_json_scalars() {
    assert_eq!(render_json(&JsonValue::Null), "null");
    assert_eq!(render_json(&JsonValue::Bool(true)), "true");
    assert_eq!(render_json(&JsonValue::Bool(false)), "false");
    assert_eq!(render_json(&JsonValue::Number("42".into())), "42");
    assert_eq!(render_json(&JsonValue::Str("say \"hi\"\n".into())), "\"say \\\"hi\\\"\\n\"");
}

#[test]
fn render_json_orders_members_and_keeps_first() {
    let v = obj(vec![
        ("b", JsonValue::Number("1".into())),
        ("a", JsonValue::Array(vec![JsonValue::Null, JsonValue::Str("x".into())])),
        ("b", JsonValue::Number("2".into())),
    ]);
    assert_eq!(render_json(&v), "{\"a\":[null,\"x\"],\"b\":1}");
    assert_eq!(render_json(&JsonValue::Array(vec![])), "[]");
    assert_eq!(render_json(&JsonValue::Object(vec![])), "{}");
}

#[test]
fn render_json_matches_serde_json() {
    let v = obj(vec![("z", JsonValue::Str("tab\tand é".into())), ("m", JsonValue::Bool(false))]);
    let mut expected = serde_json::Map::new();
    expected.insert("z".to_string(), serde_json::Value::String("tab\tand é".into()));
    expected.insert("m".to_string(), serde_json::Value::Bool(false));
    assert_eq!(render_json(&v), serde_json::Value::Object(expected).to_string());
}

#[test]
fn document_line_quotes_text_content() {
    assert_eq!(document_line(&JsonValue::Str("hello".into())), "Document: \"hello\"");
}

#[test]
fn node_new_has_fresh_identity() {
    let n = Node::new("text".to_string(), JsonValue::Str("c".into()));
    assert_eq!(n.id.as_str().len(), 36);
    assert_eq!(n.created_at, n.updated_at);
    assert!(n.parent_id.is_none() && n.before_sibling.is_none() && n.root_id.is_none());
    assert_eq!(n.content_str().map(|s| s.as_str()), Some("c"));
    let copy = n.dup();
    assert_eq!(copy.id.as_str(), n.id.as_str());
}

#[test]
fn node_type_names_are_lower_case() {
    assert_eq!(NodeType::Text.as_type_str(), "text");
    assert_eq!(NodeType::Image.as_type_str(), "image");
    assert_eq!(NodeType::Date.as_type_str(), "date");
    assert_eq!(NodeType::Task.as_type_str(), "task");
}

#[test]
fn error_descriptions() {
    let e = not_found("node", "abc", Some("check"));
    match &e {
        NodeSpaceError::Database(DatabaseError::NotFound { entity_type, id, suggestions }) => {
            assert_eq!(entity_type, "node");
            assert_eq!(id, "abc");
            assert_eq!(suggestions, &vec!["check".to_string()]);
        }
        other => panic!("unexpected {:?}", other),
    }
    assert_eq!(e.describe(), "node not found: abc");
    let i = internal("boom".to_string());
    assert!(matches!(i, NodeSpaceError::InternalError { .. }));
    assert_eq!(i.describe(), "core-logic: boom");
    let v = invalid("field", "x".to_string(), "y".to_string(), vec![]);
    assert!(matches!(v, NodeSpaceError::Validation(_)));
    assert_eq!(v.describe(), "invalid field: expected x, got y");
}

#[test]
fn render_json_escapes_strings_as_serde_json_does() {
    let v = JsonValue::Str("a\"b\\c\n\t\u{1}\u{1f}é".to_string());
    assert_eq!(render_json(&v), "\"a\\\"b\\\\c\\n\\t\\u0001\\u001fé\"");
}
