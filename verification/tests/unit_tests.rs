use rind::flow::{FlowDefinitionBase, FlowPayloadType, SignalDefinition, StateDefinition};
use rind::name::Name;
use rind::services::{RestartPolicy, Service, ServiceId, ServiceState};
use rind::store::Store;
use rind::units::{parse_mount_flags, Mount, MountFlag, Unit};

fn service(name: &str) -> Service {
    Service {
        id: ServiceId(1),
        unit: Name::from(""),
        name: name.to_string(),
        executable: "/bin/true".to_string(),
        args: vec![],
        env: None,
        after: None,
        start_on: None,
        stop_on: None,
        on_start: None,
        on_stop: None,
        transport: None,
        branching: None,
        restart: RestartPolicy::Bool(false),
        pid: None,
        state: ServiceState::Inactive,
        retry_count: 0,
        manually_stopped: false,
        branch_instances: vec![],
    }
}

fn mount(target: &str) -> Mount {
    Mount { source: None, target: target.to_string(), fstype: None, flags: vec![], data: None, create: None, after: None }
}

#[test]
fn build_index_registers_all_components() {
    let mut unit = Unit {
        service: Some(vec![service("svc")]),
        mount: Some(vec![mount("/tmp/mnt")]),
        state: Some(vec![StateDefinition(FlowDefinitionBase::named("st".to_string(), FlowPayloadType::Json))]),
        signal: Some(vec![SignalDefinition(FlowDefinitionBase::named("sig".to_string(), FlowPayloadType::Json))]),
        index: Vec::new(),
    };

    unit.build_index(&Name::from("unit"));
    assert!(unit.index_contains("service@svc"));
    assert!(unit.index_contains("mount@/tmp/mnt"));
    assert!(unit.index_contains("state@st"));
    assert!(unit.index_contains("signal@sig"));
    assert_eq!(unit.service.as_ref().unwrap()[0].unit.to_string(), "unit");
}

#[test]
fn builtin_defs_are_injected() {
    let mut store = Store::new();
    store.add_builtin_flow_defs();

    let builtin = store.unit("__rind");
    assert!(builtin.is_some());
    let builtin = builtin.unwrap_or_else(|| panic!("missing builtin unit"));
    assert!(builtin.state.as_ref().map(|x| x.iter().any(|s| s.0.name == "active")).unwrap_or(false));
    assert!(builtin.signal.as_ref().map(|x| x.iter().any(|s| s.0.name == "activate")).unwrap_or(false));
    assert!(builtin.signal.as_ref().map(|x| x.iter().any(|s| s.0.name == "deactivate")).unwrap_or(false));
}

#[test]
fn builtin_defs_keep_what_the_unit_declares() {
    let mut store = Store::new();
    store.insert_unit(
        Name::from("__rind"),
        Unit {
            service: None,
            mount: None,
            state: Some(vec![StateDefinition(FlowDefinitionBase::named("active".to_string(), FlowPayloadType::Json))]),
            signal: None,
            index: Vec::new(),
        },
    );
    store.add_builtin_flow_defs();
    store.add_builtin_flow_defs();
    let u = store.unit("__rind").unwrap();
    assert_eq!(u.state.as_ref().unwrap().len(), 1);
    assert_eq!(u.state.as_ref().unwrap()[0].0.payload, FlowPayloadType::Json);
    assert_eq!(u.signal.as_ref().unwrap().len(), 2);
    assert!(store.lookup_signal("__rind@deactivate").is_some());
    assert_eq!(store.lookup_signal("__rind@deactivate").unwrap().payload, FlowPayloadType::String);
}

#[test]
fn lookups_by_full_name() {
    let mut store = Store::new();
    store.insert_unit(
        Name::from("else"),
        Unit {
            service: Some(vec![service("one")]),
            mount: Some(vec![mount("/proc")]),
            state: Some(vec![StateDefinition(FlowDefinitionBase::named("my_state".to_string(), FlowPayloadType::Json))]),
            signal: Some(vec![SignalDefinition(FlowDefinitionBase::named("my_signal".to_string(), FlowPayloadType::String))]),
            index: Vec::new(),
        },
    );
    assert_eq!(store.len(), 1);
    assert_eq!(store.lookup_state("else@my_state").map(|x| x.name.clone()), Some("my_state".to_string()));
    assert_eq!(store.lookup_signal("else@my_signal").map(|x| x.name.clone()), Some("my_signal".to_string()));
    assert_eq!(store.lookup_service("else@one").map(|x| x.name.clone()), Some("one".to_string()));
    assert_eq!(store.lookup_mount("else@/proc").map(|x| x.target.clone()), Some("/proc".to_string()));
    assert!(store.lookup_state("else@my_signal").is_none());
    assert!(store.lookup_state("my_state").is_none());
    assert!(store.lookup_service("other@one").is_none());
}

#[test]
fn mount_flags_by_name() {
    let ok = parse_mount_flags(&vec!["MS_RDONLY".to_string(), "MS_BIND".to_string()]).unwrap();
    assert_eq!(ok, vec![MountFlag::ReadOnly, MountFlag::Bind]);
    let err = parse_mount_flags(&vec!["MS_NODEV".to_string(), "MS_FOO".to_string(), "MS_BAR".to_string()]);
    assert_eq!(err.err(), Some("unknown mount flag: MS_FOO".to_string()));
}
