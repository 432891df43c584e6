use rind::engine::{ActivationStep, DefSelector, FlowError};
use rind::flow::{FlowDefinitionBase, FlowInstance, FlowItem, FlowJson, FlowMatchOperation, FlowPayload, FlowPayloadType, FlowType, StateDefinition};
use rind::name::Name;
use rind::store::Store;
use rind::triggers::FlowChangeAction;
use rind::units::Unit;

fn state(name: &str, payload: FlowPayload) -> FlowInstance {
    FlowInstance { name: name.to_string(), payload, flow_type: FlowType::State }
}

fn json(text: &str) -> FlowPayload {
    FlowPayload::Json(FlowJson::new(text.to_string()))
}

fn field(p: &FlowPayload, key: &str) -> Option<String> {
    p.get_json_field(key).map(|v| v.to_string())
}

fn unit_of(defs: Vec<FlowDefinitionBase>) -> Unit {
    Unit { service: None, mount: None, state: Some(defs.into_iter().map(StateDefinition).collect()), signal: None, index: vec![] }
}

#[test]
fn a_plain_state_keeps_only_the_last_payload() {
    let mut store = Store::new();
    assert!(store.store_state(state("else@s", FlowPayload::String("a".to_string())), &None));
    assert!(store.store_state(state("else@s", FlowPayload::String("b".to_string())), &None));
    let branches = store.state_branches("else@s").unwrap();
    assert_eq!(branches.len(), 1);
    assert_eq!(branches[0].payload.to_string(), "b");
}

#[test]
fn json_states_branch_by_key_and_merge() {
    let mut store = Store::new();
    assert!(store.store_state(state("else@s", json(r#"{"id":"u1","x":1}"#)), &None));
    assert!(store.store_state(state("else@s", json(r#"{"id":"u2"}"#)), &None));
    assert!(store.store_state(state("else@s", json(r#"{"id":"u1","y":2}"#)), &None));
    let branches = store.state_branches("else@s").unwrap();
    assert_eq!(branches.len(), 2);
    assert_eq!(field(&branches[0].payload, "x"), Some("1".to_string()));
    assert_eq!(field(&branches[0].payload, "y"), Some("2".to_string()));
    assert_eq!(field(&branches[1].payload, "id"), Some("\"u2\"".to_string()));

    // no branch key: refused, branches unchanged
    assert!(!store.store_state(state("else@s", json(r#"{"other":1}"#)), &None));
    assert_eq!(store.state_branches("else@s").unwrap().len(), 2);

    // branch keys from the definition's specs
    let specs = Some(vec!["seat:tty".to_string()]);
    assert!(store.store_state(state("else@t", json(r#"{"seat":"tty1","n":1}"#)), &specs));
    assert!(store.store_state(state("else@t", json(r#"{"seat":"tty1","n":2}"#)), &specs));
    assert!(store.store_state(state("else@t", json(r#"{"seat":"tty2"}"#)), &specs));
    let t = store.state_branches("else@t").unwrap();
    assert_eq!(t.len(), 2);
    assert_eq!(field(&t[0].payload, "n"), Some("2".to_string()));
}

#[test]
fn removing_branches_by_filter() {
    let mut store = Store::new();
    store.store_state(state("else@s", json(r#"{"id":"sss"}"#)), &None);
    store.store_state(state("else@s", json(r#"{"id":"some_id"}"#)), &None);
    store.store_state(state("else@s", json(r#"{"id":"jsjs"}"#)), &None);

    let filter = Some(FlowMatchOperation::Options { binary: None, contains: None, filter: Some(serde_json::from_str(r#"{"id":"sss"}"#).unwrap()) });
    let (keep, remove) = store.remove_state_begin("else@s", &filter).unwrap();
    assert_eq!(keep.len(), 2);
    assert_eq!(remove.len(), 1);
    assert!(store.state_branches("else@s").is_none());
    store.remove_state_end("else@s", keep);
    assert_eq!(store.state_branches("else@s").unwrap().len(), 2);

    let (keep, remove) = store.remove_state_begin("else@s", &None).unwrap();
    assert_eq!((keep.len(), remove.len()), (0, 2));
    store.remove_state_end("else@s", keep);
    assert!(store.state_branches("else@s").is_none());
    assert!(store.remove_state_begin("else@s", &None).is_none());
}

#[test]
fn dependent_states_follow_their_source() {
    let mut store = Store::new();
    let base = FlowDefinitionBase::named("my_state".to_string(), FlowPayloadType::Json);
    let mut dep = FlowDefinitionBase::named("some_state".to_string(), FlowPayloadType::Json);
    dep.branch = Some(vec!["tty:seat".to_string()]);
    dep.after = Some(vec![FlowItem::Simple("else@my_state".to_string())]);
    store.insert_unit(Name::new("else"), unit_of(vec![base, dep]));

    let source = state("else@my_state", json(r#"{"id":"u1","seat":"tty1","user":"makano"}"#));
    store.store_state(source.duplicate(), &None);

    let picked = store.select_defs(&DefSelector::After { source: &source });
    assert_eq!(picked, vec![(0, 1)]);
    let def = &store.units[0].value.state.as_ref().unwrap()[1].0;
    let src = Store::transcend_source(def, &source, "");
    let (name, payload) = store.transcend_one("else@my_state", FlowChangeAction::Apply, 0, 1, &src).unwrap();
    assert_eq!(name, "else@some_state");
    assert_eq!(field(&payload, "tty"), Some("\"tty1\"".to_string()));
    // applied: all conditions hold, so a revert finds nothing to undo
    assert!(store.transcend_one("else@my_state", FlowChangeAction::Revert, 0, 1, &src).is_none());
    // the source itself never follows
    assert!(store.transcend_one("else@some_state", FlowChangeAction::Apply, 0, 1, &src).is_none());
}

#[test]
fn activation_on_none() {
    let mut store = Store::new();
    let blocker = FlowDefinitionBase::named("my_state".to_string(), FlowPayloadType::Json);
    let mut idle = FlowDefinitionBase::named("idle".to_string(), FlowPayloadType::String);
    idle.activate_on_none = Some(vec!["else@my_state".to_string()]);
    store.insert_unit(Name::new("else"), unit_of(vec![blocker, idle]));

    assert_eq!(store.select_defs(&DefSelector::OnNone), vec![(0, 1)]);
    match store.activation_one(0, 1, "") {
        ActivationStep::Activate(name, payload) => {
            assert_eq!(name, "else@idle");
            assert_eq!(payload.to_string(), "");
        }
        _ => panic!("expected activation"),
    }
    store.store_state(state("else@idle", FlowPayload::String(String::new())), &None);
    assert!(matches!(store.activation_one(0, 1, ""), ActivationStep::Nothing));
    store.store_state(state("else@my_state", json(r#"{"id":"u1"}"#)), &None);
    match store.activation_one(0, 1, "") {
        ActivationStep::Remove(name) => assert_eq!(name, "else@idle"),
        _ => panic!("expected removal"),
    }
}

#[test]
fn conditions_and_environment_from_states() {
    let mut store = Store::new();
    store.store_state(state("else@login", FlowPayload::String("/dev/tty1".to_string())), &None);
    assert!(store.condition_is_active(&FlowItem::Simple("else@login".to_string()), None));
    assert!(store.condition_is_active(&FlowItem::Simple("else@login".to_string()), Some(&FlowPayload::String("/dev/tty1".to_string()))));
    assert!(!store.condition_is_active(&FlowItem::Simple("else@login".to_string()), Some(&FlowPayload::String("/dev/tty2".to_string()))));
    assert!(!store.condition_is_active(&FlowItem::Simple("else@other".to_string()), None));

    let env = store.env_assignments(&vec![
        "RIND_LOGIN_TTY=state:else@login".to_string(),
        "MODE=fast".to_string(),
        "NOEQUALS".to_string(),
        "MISSING=state:else@nothing".to_string(),
    ]);
    assert_eq!(
        env,
        vec![("RIND_LOGIN_TTY".to_string(), "/dev/tty1".to_string()), ("MODE".to_string(), "fast".to_string())]
    );
}

#[test]
fn flow_error_messages() {
    assert_eq!(FlowError::StateValidation.message(), "State trigger validation failed.");
    assert_eq!(FlowError::InvalidBranchKeys.message(), "Invalid JSON branch keys");
    assert_eq!(FlowError::SignalValidation.message(), "Signal trigger validation failed.");
}
