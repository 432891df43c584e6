use rind::flow::{FlowInstance, FlowJson, FlowPayload, FlowType};
use rind::store::{PersistMode, Store};

fn active(text: &str) -> FlowInstance {
    FlowInstance { name: "active".to_string(), payload: FlowPayload::String(text.to_string()), flow_type: FlowType::State }
}

#[test]
fn load_enabled_parses_active_state_items() {
    let mut store = Store::new();
    store.insert_state("active".to_string(), vec![active("unit_a"), active("unit_b@{svc1,svc2}")]);

    store.load_enabled();

    assert!(store.enabled_contains("unit_a"));
    let filter = store.enabled_get("unit_b").cloned().unwrap_or_default();
    assert!(filter.contains(&"svc1".to_string()));
    assert!(filter.contains(&"svc2".to_string()));
}

#[test]
fn save_enabled_keeps_only_declared_active_lines() {
    let mut store = Store::new();
    store.enabled_insert("unit_x".to_string(), vec!["svc1".to_string()]);
    store.insert_state("active".to_string(), vec![active("unit_x@{svc1}"), active("unit_other")]);

    store.save_enabled();

    if let Some(active) = store.state_branches("active") {
        assert_eq!(active.len(), 1);
        assert_eq!(active[0].payload.to_string(), "unit_x@{svc1}".to_string());
    } else {
        panic!("expected active state list");
    }
}

#[test]
fn enabled_units_survive_save_and_load() {
    let mut store = Store::new();
    store.enabled_insert("web".to_string(), vec![]);
    store.enabled_insert("db".to_string(), vec!["pg".to_string(), "backup".to_string()]);
    store.save_enabled();
    let lines: Vec<String> = store.state_branches("active").unwrap().iter().map(|b| b.payload.to_string()).collect();
    assert_eq!(lines, vec!["web".to_string(), "db@{pg,backup}".to_string()]);

    let needs_fallback = store.load_enabled();
    assert!(!needs_fallback);
    assert!(store.enabled_contains("web"));
    assert_eq!(store.enabled_get("web").unwrap().len(), 0);
    let db = store.enabled_get("db").unwrap();
    assert_eq!(db.len(), 2);
    assert!(db.contains(&"pg".to_string()) && db.contains(&"backup".to_string()));
    assert_eq!(store.enabled_names().len(), 2);
}

#[test]
fn load_enabled_without_active_lines_asks_for_fallback() {
    let mut store = Store::new();
    assert!(store.load_enabled());
    store.load_enabled_fallback(&vec!["unit_a".to_string(), "unit_b@{ svc1 , , svc2 }".to_string(), "".to_string()]);
    assert!(store.enabled_contains("unit_a"));
    let b = store.enabled_get("unit_b").unwrap();
    assert_eq!(b, &vec!["svc1".to_string(), "svc2".to_string()]);
    assert_eq!(store.state_branches("active").unwrap().len(), 2);
}

#[test]
fn enabled_lines_with_odd_shapes() {
    let mut store = Store::new();
    store.parse_enabled_line("u@x");
    assert_eq!(store.enabled_get("u").unwrap().len(), 0);
    store.parse_enabled_line("v@{}");
    assert_eq!(store.enabled_get("v").unwrap().len(), 0);
    store.parse_enabled_line("w@{a,a}");
    assert_eq!(store.enabled_get("w").unwrap(), &vec!["a".to_string()]);
    store.parse_enabled_line("");
    assert_eq!(store.enabled_names().len(), 3);
}

#[test]
fn save_enabled_drops_json_branches_whose_name_is_quoted() {
    let mut store = Store::new();
    store.enabled_insert("unit_x".to_string(), vec![]);
    let j = FlowInstance {
        name: "active".to_string(),
        payload: FlowPayload::Json(FlowJson::from(r#"{"name":"unit_x"}"#.to_string())),
        flow_type: FlowType::State,
    };
    store.insert_state("active".to_string(), vec![j]);
    store.save_enabled();
    let a = store.state_branches("active").unwrap();
    assert_eq!(a.len(), 1);
    assert!(matches!(a[0].payload, FlowPayload::String(_)));
    assert_eq!(a[0].payload.to_string(), "unit_x");
}

#[test]
fn enable_and_disable_components() {
    let mut store = Store::new();
    store.enable_component("u", "svc", PersistMode::No);
    assert_eq!(store.enabled_get("u").unwrap(), &vec!["svc".to_string()]);
    store.enable_component("u", "svc", PersistMode::No);
    assert_eq!(store.enabled_get("u").unwrap().len(), 1);
    store.disable_component("u", "svc", PersistMode::Yes);
    assert_eq!(store.enabled_get("u").unwrap().len(), 0);
    assert_eq!(store.state_branches("active").unwrap()[0].payload.to_string(), "u");
    store.disable_unit("u", PersistMode::Yes);
    assert!(!store.enabled_contains("u"));
    assert_eq!(store.state_branches("active").unwrap().len(), 0);
}
