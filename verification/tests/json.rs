//! Documents.

use classagent::json::from_value;
use classagent::json::put;
use classagent::json::to_value;
use classagent::json::without;
use classagent::json::Json;

fn doc(text: &str) -> Json {
    Json::parse(text).expect("a document")
}

#[test]
fn documents_are_read() {
    let j = doc(r#"{"a": [1, -2, 1.5, "x", true, null], "b": {"c": 18446744073709551615}}"#);
    assert!(j.is_object());
    let a = j.get("a").unwrap().as_array().unwrap();
    assert_eq!(a.len(), 6);
    assert_eq!(a[0].as_u64(), Some(1));
    assert_eq!(a[1].as_u64(), None);
    assert_eq!(a[1].as_bits().map(f64::from_bits), Some(-2.0));
    assert_eq!(a[2].as_bits().map(f64::from_bits), Some(1.5));
    assert_eq!(a[2].as_u64(), None);
    assert_eq!(a[2].double_string(), Some("1.5".to_string()));
    assert_eq!(a[0].double_string(), Some("1".to_string()));
    assert_eq!(a[3].as_str(), Some("x"));
    assert_eq!(a[4].as_bool(), Some(true));
    assert!(matches!(a[5], Json::Null));
    assert_eq!(j.get("b").unwrap().u64_at("c"), Some(u64::MAX));
    assert!(j.get("nothing").is_none());
    assert!(doc("3").get("a").is_none());
}

#[test]
fn a_text_that_is_no_document_is_refused() {
    let e = Json::parse("{ not json").unwrap_err();
    let own = serde_json::from_str::<serde_json::Value>("{ not json").unwrap_err().to_string();
    assert_eq!(e, own);
    assert!(Json::parse("").is_err());
    assert!(Json::parse(&"[".repeat(200)).is_err());
}

#[test]
fn documents_are_written() {
    let mut o = Vec::new();
    put(&mut o, "b", Json::text("行\n"));
    put(&mut o, "a", Json::array(vec![Json::uint(1), Json::Null, Json::Bool(false)]));
    put(&mut o, "b", Json::uint(7));
    let j = Json::object(o);
    assert_eq!(j.to_text(), r#"{"a":[1,null,false],"b":7}"#);
    assert_eq!(j.to_pretty(), "{\n  \"a\": [\n    1,\n    null,\n    false\n  ],\n  \"b\": 7\n}");
    assert_eq!(Json::text("行\n").to_text(), "\"行\\n\"");
}

#[test]
fn a_line_holds_a_whole_document() {
    let j = doc("{\"t\": \"一\\n二\\r三\", \"n\": [1, {\"m\": -5}]}");
    let line = j.to_text();
    assert!(!line.contains('\n'));
    assert_eq!(to_value(&doc(&line)), to_value(&j));
    assert_eq!(to_value(&doc(&j.to_pretty())), to_value(&j));
}

#[test]
fn values_go_there_and_back() {
    let v: serde_json::Value = serde_json::from_str(r#"{"x": [0.1, {"y": "z"}], "n": -9}"#).unwrap();
    assert_eq!(to_value(&from_value(v.clone())), v);
    assert_eq!(to_value(&from_value(v.clone()).copy()), v);
}

#[test]
fn members_are_taken_out() {
    let mut o = Vec::new();
    put(&mut o, "a", Json::uint(1));
    put(&mut o, "b", Json::uint(2));
    let o = without(o, "a");
    assert_eq!(Json::object(o).to_text(), r#"{"b":2}"#);
}
