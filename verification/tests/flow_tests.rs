use rind::flow::{FlowJson, FlowPayload};

fn json(text: &str) -> serde_json::Value {
    serde_json::from_str(text).unwrap()
}

#[test]
fn flow_json_into_json_handles_invalid_input() {
    let parsed = FlowJson::from("{not-json}".to_string()).into_json();
    assert!(parsed.is_null());
}

#[test]
fn flow_payload_to_string_and_contains() {
    let s = FlowPayload::String("alpha-beta".to_string());
    assert_eq!(s.to_string(), "alpha-beta");
    assert!(s.contains(&"beta".to_string()));

    let j = FlowPayload::Json(FlowJson::from(r#"["x","y"]"#.to_string()));
    assert!(j.contains(&"x".to_string()));

    let bytes = FlowPayload::Bytes(vec![0xFF, 0xFF]);
    assert_eq!(bytes.to_string(), "");
}

#[test]
fn value_to_vec_string_for_array_and_non_array() {
    let arr = json(r#"["a", "b", 1]"#);
    let out = FlowPayload::value_to_vec_string(&arr);
    assert_eq!(out, vec!["a".to_string(), "b".to_string()]);

    let non = json(r#"{"k":"v"}"#);
    let out_non = FlowPayload::value_to_vec_string(&non);
    assert_eq!(out_non, vec!["".to_string()]);
}

#[test]
fn signals() {}

#[test]
fn payload_text_of_each_kind() {
    assert_eq!(FlowPayload::Bytes(b"hi".to_vec()).to_string(), "hi");
    assert_eq!(FlowPayload::Empty(false).to_string(), "");
    assert_eq!(FlowPayload::Json(FlowJson::from(r#"{"a":1}"#.to_string())).to_string(), r#"{"a":1}"#);
    assert!(!FlowPayload::Bytes(b"beta".to_vec()).contains(&"beta".to_string()));
    assert!(!FlowPayload::Json(FlowJson::from(r#"{"x":"y"}"#.to_string())).contains(&"y".to_string()));
}

#[test]
fn json_field_of_payloads() {
    let p = FlowPayload::Json(FlowJson::from(r#"{"name":"unit_a","n":2}"#.to_string()));
    assert_eq!(p.get_json_field("name"), Some(json(r#""unit_a""#)));
    assert_eq!(p.get_json_field("missing"), None);
    assert_eq!(FlowPayload::String("x".to_string()).get_json_field("name"), None);
}
