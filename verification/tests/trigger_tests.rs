use rind::flow::{FlowItem, FlowInstance, FlowJson, FlowMatchOperation, FlowPayload, FlowType};
use rind::flow::{AutoPayloadInsert, FlowPayloadType};
use rind::triggers::{
    apply_guard_key, auto_payload_for, check_condition, json_branch_key, map_json_payload, match_operation, merge_json,
    payload_fits, payload_signature, payload_to_filter, revert_guard_key, subset_match, transcendent_payload_for,
};

fn json(text: &str) -> serde_json::Value {
    serde_json::from_str(text).unwrap()
}

#[test]
fn subset_match_for_nested_payloads() {
    let filter = json(r#"{"a":{"x":1},"b":[{"id":2}]}"#);
    let payload = json(r#"{"a":{"x":1,"y":2},"b":[{"id":2},{"id":3}]}"#);
    assert!(subset_match(&filter, &payload));
}

#[test]
fn match_operation_variants() {
    assert!(match_operation(
        &FlowMatchOperation::Eq("abc".to_string()),
        &FlowPayload::String("abc".to_string())
    ));
    assert!(match_operation(
        &FlowMatchOperation::Options { binary: Some(true), contains: None, filter: None },
        &FlowPayload::Bytes(vec![1, 2])
    ));
    assert!(match_operation(
        &FlowMatchOperation::Options { binary: None, contains: Some("ell".to_string()), filter: None },
        &FlowPayload::String("hello".to_string())
    ));
}

#[test]
fn json_key_extract_and_merge() {
    let mut left = json(r#"{"id":1,"a":"old"}"#);
    let right = json(r#"{"a":"new","b":true}"#);
    let key = json_branch_key(&left, &vec!["id".to_string()]);
    assert_eq!(key, Some(vec!["1".to_string()]));
    merge_json(&mut left, &right);
    assert_eq!(left["a"], json(r#""new""#));
    assert_eq!(left["b"], json("true"));
}

#[test]
fn subset_match_rejects_missing_member_and_item() {
    assert!(!subset_match(&json(r#"{"a":1}"#), &json(r#"{"b":1}"#)));
    assert!(!subset_match(&json(r#"[1,4]"#), &json(r#"[1,2,3]"#)));
    assert!(subset_match(&json(r#"[3,1]"#), &json(r#"[1,2,3]"#)));
    assert!(!subset_match(&json("1"), &json("2")));
}

#[test]
fn payload_filter_selects_its_own_branch() {
    let p = FlowPayload::Json(FlowJson::from(r#"{"id":"u1","seat":"tty1"}"#.to_string()));
    let f = payload_to_filter(&p).unwrap();
    assert!(match_operation(&f, &p));
    let s = FlowPayload::String("tty1".to_string());
    let f = payload_to_filter(&s).unwrap();
    assert!(match_operation(&f, &s));
    assert!(payload_to_filter(&FlowPayload::Bytes(vec![1])).is_none());
}

#[test]
fn conditions_by_name_type_and_payload() {
    let st = FlowInstance { name: "u@s".to_string(), payload: FlowPayload::String("x".to_string()), flow_type: FlowType::State };
    assert!(check_condition(&FlowItem::Simple("u@s".to_string()), &st));
    let d = FlowItem::Detailed {
        state: Some("u@s".to_string()),
        signal: None,
        target: None,
        branch: Some(FlowMatchOperation::Eq("x".to_string())),
    };
    assert!(check_condition(&d, &st));
    let sig = FlowItem::Detailed { state: None, signal: Some("u@s".to_string()), target: None, branch: None };
    assert!(!check_condition(&sig, &st));
}

#[test]
fn signatures_of_payloads() {
    assert_eq!(payload_signature(&Some(FlowPayload::String("a".to_string()))), "str:a");
    assert_eq!(payload_signature(&Some(FlowPayload::Bytes(vec![1, 2, 3]))), "bytes:3");
    assert_eq!(payload_signature(&None), "none");
    assert_eq!(payload_signature(&Some(FlowPayload::Json(FlowJson::from("{}".to_string())))), "json:{}");
}

fn def(name: &str, t: rind::flow::FlowPayloadType) -> rind::flow::FlowDefinitionBase {
    rind::flow::FlowDefinitionBase::named(name.to_string(), t)
}

fn auto(insert: Option<rind::flow::AutoPayloadInsert>) -> Option<rind::flow::AutoPayloadConfig> {
    Some(rind::flow::AutoPayloadConfig { eval: Some("/bin/true".to_string()), insert, args: None })
}

#[test]
fn automatic_payloads_from_command_output() {

    let mut d = def("s", FlowPayloadType::Json);
    d.auto_payload = auto(None);
    assert_eq!(auto_payload_for(&d, "  first \n\nsecond\n").to_string(), r#"{"value":"first"}"#);

    d.auto_payload = auto(Some(AutoPayloadInsert::One("user".to_string())));
    assert_eq!(auto_payload_for(&d, "alice\nbob").to_string(), r#"{"user":"alice"}"#);

    d.auto_payload = auto(Some(AutoPayloadInsert::Many(vec!["a".to_string(), "b".to_string(), "c".to_string()])));
    assert_eq!(auto_payload_for(&d, "1\n2").to_string(), r#"{"a":"1","b":"2"}"#);

    d.auto_payload = auto(Some(AutoPayloadInsert::One("root".to_string())));
    assert_eq!(auto_payload_for(&d, r#"{"k":3}"#).to_string(), r#"{"k":3}"#);
    assert_eq!(auto_payload_for(&d, "plain").to_string(), r#""plain""#);
    assert_eq!(auto_payload_for(&d, "x\ny").to_string(), r#"["x","y"]"#);

    let mut s = def("s", FlowPayloadType::String);
    s.auto_payload = auto(None);
    assert_eq!(auto_payload_for(&s, " a \n\n b ").to_string(), "a\nb");

    let mut b = def("s", FlowPayloadType::Bytes);
    b.auto_payload = auto(None);
    assert!(matches!(auto_payload_for(&b, "raw\n"), FlowPayload::Bytes(v) if v == b"raw\n".to_vec()));

    // without a configuration: the default payload of the type
    assert_eq!(auto_payload_for(&def("s", FlowPayloadType::Json), "ignored").to_string(), "{}");
    assert!(matches!(auto_payload_for(&def("s", FlowPayloadType::Empty), ""), FlowPayload::Empty(false)));
}

#[test]
fn payloads_of_dependent_states() {

    let source = FlowPayload::Json(FlowJson::new(r#"{"id":"u1","seat":"tty1"}"#.to_string()));
    let mapped = map_json_payload(&vec!["tty : seat".to_string(), "who:id".to_string()], &source).unwrap();
    assert_eq!(mapped.to_string(), r#"{"tty":"tty1","who":"u1"}"#);
    assert!(map_json_payload(&vec!["x:missing".to_string()], &source).is_none());
    assert!(map_json_payload(&vec![], &FlowPayload::String("s".to_string())).is_none());

    let mut d = def("d", FlowPayloadType::Json);
    assert_eq!(transcendent_payload_for(&d, &source).unwrap().to_string(), source.to_string());
    d.branch = Some(vec!["tty:seat".to_string()]);
    assert_eq!(transcendent_payload_for(&d, &source).unwrap().to_string(), r#"{"tty":"tty1"}"#);
    assert!(transcendent_payload_for(&def("d", FlowPayloadType::String), &source).is_none());
    assert!(matches!(
        transcendent_payload_for(&def("d", FlowPayloadType::Empty), &source),
        Some(FlowPayload::Empty(false))
    ));
}

#[test]
fn guard_keys_and_payload_types() {

    let p = FlowPayload::String("x".to_string());
    assert_eq!(apply_guard_key("u@s", &Some(p.duplicate())), format!("apply::u@s::{}", payload_signature(&Some(p.duplicate()))));
    assert_eq!(revert_guard_key("u@s", &p), format!("revert::u@s::{}", payload_signature(&Some(p.duplicate()))));
    assert!(payload_fits(&None, FlowPayloadType::Bytes));
    assert!(payload_fits(&Some(p.duplicate()), FlowPayloadType::String));
    assert!(!payload_fits(&Some(p), FlowPayloadType::Json));
    assert!(payload_fits(&Some(FlowPayload::Empty(true)), FlowPayloadType::Empty));
}
