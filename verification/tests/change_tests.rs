use rind::change::{ChangeGuard, SetBegin};
use rind::flow::{FlowDefinitionBase, FlowPayload, FlowPayloadType, FlowType, StateDefinition};
use rind::name::Name;
use rind::store::Store;
use rind::units::Unit;

fn store_with_state() -> Store {
    let mut store = Store::new();
    let mut def = FlowDefinitionBase::named("seat".to_string(), FlowPayloadType::String);
    def.branch = Some(vec!["id".to_string()]);
    let unit = Unit { service: None, mount: None, state: Some(vec![StateDefinition(def)]), signal: None, index: vec![] };
    store.insert_unit(Name::new("else"), unit);
    store
}

#[test]
fn a_guard_key_is_entered_once_until_it_is_left() {
    let mut guard = ChangeGuard::new();
    assert!(!guard.holds("apply::a::none"));
    assert!(guard.enter("apply::a::none"));
    assert!(guard.holds("apply::a::none"));
    assert!(!guard.enter("apply::a::none"));
    assert!(guard.enter("revert::a::none"));
    guard.leave("apply::a::none");
    assert!(!guard.holds("apply::a::none"));
    assert!(guard.holds("revert::a::none"));
    assert!(guard.enter("apply::a::none"));
}

#[test]
fn setting_a_known_state_takes_its_guard_key() {
    let store = store_with_state();
    let mut guard = ChangeGuard::new();
    match store.begin_set_state(&mut guard, "else@seat".to_string(), Some(FlowPayload::String("tty1".to_string()))) {
        SetBegin::Proceed { instance, branches, key } => {
            assert_eq!(key, "apply::else@seat::str:tty1");
            assert_eq!(instance.name, "else@seat");
            assert_eq!(instance.flow_type, FlowType::State);
            assert_eq!(instance.payload.to_string(), "tty1");
            assert_eq!(branches, Some(vec!["id".to_string()]));
        }
        _ => panic!("expected the change to go on"),
    }
    assert!(guard.holds("apply::else@seat::str:tty1"));
}

#[test]
fn setting_a_state_under_way_is_cut_short() {
    let store = store_with_state();
    let mut guard = ChangeGuard::new();
    assert!(guard.enter("apply::else@seat::str:tty1"));
    let r = store.begin_set_state(&mut guard, "else@seat".to_string(), Some(FlowPayload::String("tty1".to_string())));
    assert!(matches!(r, SetBegin::Guarded));
    assert!(guard.holds("apply::else@seat::str:tty1"));
}

#[test]
fn setting_an_unknown_state_or_a_wrong_payload_fails() {
    let store = store_with_state();
    let mut guard = ChangeGuard::new();
    let r = store.begin_set_state(&mut guard, "else@nothing".to_string(), None);
    assert!(matches!(r, SetBegin::Invalid));
    assert!(!guard.holds("apply::else@nothing::none"));
    let r = store.begin_set_state(&mut guard, "else@seat".to_string(), Some(FlowPayload::Bytes(vec![1, 2])));
    assert!(matches!(r, SetBegin::Invalid));
    assert!(!guard.holds("apply::else@seat::bytes:2"));
}

#[test]
fn setting_a_state_without_a_payload_stores_an_empty_one() {
    let store = store_with_state();
    let mut guard = ChangeGuard::new();
    match store.begin_set_state(&mut guard, "else@seat".to_string(), None) {
        SetBegin::Proceed { instance, key, .. } => {
            assert_eq!(key, "apply::else@seat::none");
            assert!(matches!(instance.payload, FlowPayload::Empty(false)));
        }
        _ => panic!("expected the change to go on"),
    }
}
