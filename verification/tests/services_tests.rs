use rind::flow::{FlowDefinitionBase, FlowInstance, FlowItem, FlowJson, FlowPayload, FlowPayloadType, FlowType, StateDefinition};
use rind::name::Name;
use rind::order::{start_order, DepItem};
use rind::services::{
    add_branch_instance, branch_start, exit_action, finish_start, payload_branch_key, record_exit, stop_service, trim_quotes, BranchServiceInstance,
    BranchStart, BranchingConfig, ExitAction, RestartPolicy, Service, ServiceId, ServiceState, StopMode, StopSignal,
};
use rind::store::{PersistMode, Store};
use rind::triggers::FlowChangeAction;
use rind::units::Unit;

fn service(name: &str) -> Service {
    Service {
        id: ServiceId(1),
        unit: Name::from(""),
        name: name.to_string(),
        executable: "/bin/true".to_string(),
        args: vec![],
        env: None,
        after: None,
        start_on: None,
        stop_on: None,
        on_start: None,
        on_stop: None,
        transport: None,
        branching: None,
        restart: RestartPolicy::Bool(false),
        pid: None,
        state: ServiceState::Inactive,
        retry_count: 0,
        manually_stopped: false,
        branch_instances: vec![],
    }
}

fn after(mut s: Service, deps: &[&str]) -> Service {
    s.after = Some(deps.iter().map(|d| d.to_string()).collect());
    s
}

fn item(name: &str, deps: Option<&[&str]>) -> DepItem {
    DepItem {
        name: name.to_string(),
        waited_name: name.to_string(),
        after: deps.map(|d| d.iter().map(|x| x.to_string()).collect()),
    }
}

fn unit_with(services: Vec<Service>) -> Unit {
    Unit { service: Some(services), mount: None, state: None, signal: None, index: Vec::new() }
}

#[test]
fn start_order_follows_after_lists() {
    let items = vec![
        item("c", Some(&["b"])),
        item("a", None),
        item("b", Some(&["a"])),
        item("x", Some(&["missing"])),
        item("d", Some(&["c", "a"])),
    ];
    let r = start_order(&items);
    assert_eq!(r.order, vec![1, 2, 0, 4]);
    assert_eq!(r.unresolved, vec![3]);
}

#[test]
fn start_order_with_a_cycle_leaves_both_waiting() {
    let items = vec![item("p", Some(&["q"])), item("q", Some(&["p"])), item("r", None)];
    let r = start_order(&items);
    assert_eq!(r.order, vec![2]);
    assert_eq!(r.unresolved, vec![0, 1]);
}

#[test]
fn exit_actions_by_policy() {
    assert_eq!(exit_action(&RestartPolicy::Bool(false), 1, false, 0), ExitAction::StopDependents);
    assert_eq!(exit_action(&RestartPolicy::Bool(true), 0, false, 0), ExitAction::Restart { count_retry: false });
    assert_eq!(exit_action(&RestartPolicy::Bool(true), 0, true, 0), ExitAction::StopDependents);
    let p = RestartPolicy::OnFailure { max_retries: 2 };
    assert_eq!(exit_action(&p, 1, false, 1), ExitAction::Restart { count_retry: true });
    assert_eq!(exit_action(&p, 1, false, 2), ExitAction::StopDependents);
    assert_eq!(exit_action(&p, 0, false, 0), ExitAction::StopDependents);
}

#[test]
fn record_exit_marks_the_exited_process() {
    let mut a = service("a");
    a.pid = Some(10);
    a.state = ServiceState::Active;
    a.restart = RestartPolicy::OnFailure { max_retries: 3 };
    a.id = ServiceId(7);
    let mut b = service("b");
    b.pid = Some(11);
    b.state = ServiceState::Active;
    b.branch_instances = vec![BranchServiceInstance { key: "k".to_string(), pid: Some(10), state: ServiceState::Active, retry_count: 0 }];
    let mut c = service("c");
    c.pid = Some(10);
    c.state = ServiceState::Active;
    let mut services = vec![a, b, c];
    let plan = record_exit(&mut services, 10, 2);
    assert_eq!(plan.restart, vec![ServiceId(7)]);
    assert_eq!(plan.stop_dependents_of, vec!["c".to_string()]);
    assert!(services[0].state == ServiceState::Exited(2));
    assert_eq!(services[0].retry_count, 1);
    assert!(services[0].pid.is_none());
    assert!(services[1].state == ServiceState::Active);
    assert!(services[1].branch_instances[0].state == ServiceState::Exited(2));
    assert!(services[2].state == ServiceState::Exited(2));
}

#[test]
fn stopping_a_service_and_its_branches() {
    let mut s = service("s");
    s.pid = Some(40);
    s.state = ServiceState::Active;
    s.branch_instances = vec![
        BranchServiceInstance { key: "a".to_string(), pid: Some(41), state: ServiceState::Active, retry_count: 0 },
        BranchServiceInstance { key: "b".to_string(), pid: None, state: ServiceState::Active, retry_count: 0 },
    ];
    let kills = stop_service(&mut s, StopMode::ForceKill);
    assert_eq!(kills.len(), 2);
    assert_eq!((kills[0].pid, kills[0].signal), (40, StopSignal::Kill));
    assert_eq!((kills[1].pid, kills[1].signal), (41, StopSignal::Kill));
    assert!(s.state == ServiceState::Stopping);
    assert!(s.manually_stopped);
    assert!(s.branch_instances[0].state == ServiceState::Stopping);
    assert!(s.branch_instances[1].state == ServiceState::Inactive);

    let mut idle = service("idle");
    assert!(stop_service(&mut idle, StopMode::Graceful).is_empty());
    assert!(idle.state == ServiceState::Inactive);
    assert!(!idle.manually_stopped);
}

#[test]
fn finishing_a_start() {
    let mut s = service("web");
    finish_start(&mut s, Ok(99));
    assert!(s.state == ServiceState::Active);
    assert_eq!(s.pid, Some(99));
    let mut t = service("web");
    finish_start(&mut t, Err("no such file".to_string()));
    assert!(t.state == ServiceState::Error("Failed to start service \"web\": no such file".to_string()));
}

#[test]
fn branch_keys_of_payloads() {
    let p = FlowPayload::Json(FlowJson::from(r#"{"id":"u1","n":5}"#.to_string()));
    assert_eq!(payload_branch_key(&p, None), Some("u1".to_string()));
    assert_eq!(payload_branch_key(&p, Some("n")), Some("5".to_string()));
    assert_eq!(payload_branch_key(&p, Some("x")), None);
    assert_eq!(payload_branch_key(&FlowPayload::String("tty1".to_string()), None), Some("tty1".to_string()));
    assert_eq!(payload_branch_key(&FlowPayload::Bytes(vec![]), None), None);
    assert_eq!(trim_quotes("\"\"a\"b\"\""), "a\"b");
    assert_eq!(trim_quotes("\"\""), "");
}

#[test]
fn branch_start_decisions() {
    let mut s = service("s");
    assert_eq!(branch_start(&s, "k"), BranchStart::Spawn);
    let mut cfg = BranchingConfig::default();
    cfg.max_instances = Some(1);
    s.branching = Some(cfg);
    s.branch_instances = vec![BranchServiceInstance { key: "k".to_string(), pid: Some(1), state: ServiceState::Active, retry_count: 0 }];
    assert_eq!(branch_start(&s, "k"), BranchStart::Exists);
    assert_eq!(branch_start(&s, "j"), BranchStart::LimitReached { max: 1 });
    let d = BranchingConfig::default();
    assert!(!d.enabled);
    assert_eq!(d.key, Some("id".to_string()));
    assert_eq!(d.max_instances, Some(64));
}

#[test]
fn dependents_start_and_stop_through_after_lists() {
    let mut store = Store::new();
    let db = service("db");
    let web = after(service("web"), &["db"]);
    let api = after(service("api"), &["web"]);
    let mut other = after(service("other"), &["db"]);
    other.state = ServiceState::Exited(1);
    store.insert_unit(Name::from("app"), unit_with(vec![db, web, api, other]));
    store.enabled_insert("app".to_string(), vec![]);

    let started = store.start_dependents("db");
    assert_eq!(started, vec!["app@web".to_string(), "app@api".to_string()]);
    let svcs = store.unit("app").unwrap().service.as_ref().unwrap();
    assert!(svcs[1].state == ServiceState::Starting);
    assert!(svcs[2].state == ServiceState::Starting);
    assert!(svcs[3].state == ServiceState::Exited(1));

    let (stopped, kills) = store.stop_dependents("db", StopMode::Graceful);
    assert_eq!(stopped, vec!["app@web".to_string(), "app@api".to_string()]);
    assert!(kills.is_empty());
    let svcs = store.unit("app").unwrap().service.as_ref().unwrap();
    assert!(svcs[1].state == ServiceState::Inactive);
    assert!(svcs[2].state == ServiceState::Inactive);
}

#[test]
fn services_outside_the_waiting_set_keep_their_state() {
    let mut store = Store::new();
    let lone = service("lone");
    let cache = after(service("cache"), &["queue"]);
    let web = after(service("web"), &["db"]);
    let ping = after(service("ping"), &["pong"]);
    let pong = after(service("pong"), &["ping"]);
    store.insert_unit(Name::from("app"), unit_with(vec![lone, cache, web, ping, pong]));
    store.enabled_insert("app".to_string(), vec![]);

    assert_eq!(store.start_dependents("db"), vec!["app@web".to_string()]);
    let svcs = store.unit("app").unwrap().service.as_ref().unwrap();
    assert!(svcs[0].state == ServiceState::Inactive);
    assert!(svcs[1].state == ServiceState::Inactive);
    assert!(svcs[3].state == ServiceState::Inactive);

    // services that wait on each other are each started once
    assert_eq!(store.start_dependents("ping"), vec!["app@pong".to_string(), "app@ping".to_string()]);
    let (stopped, _) = store.stop_dependents("ping", StopMode::Graceful);
    assert_eq!(stopped, vec!["app@pong".to_string(), "app@ping".to_string()]);
    let svcs = store.unit("app").unwrap().service.as_ref().unwrap();
    assert!(svcs[2].state == ServiceState::Starting);
}

#[test]
fn dependents_of_a_disabled_unit_do_not_start() {
    let mut store = Store::new();
    store.insert_unit(Name::from("app"), unit_with(vec![after(service("web"), &["db"])]));
    assert!(store.start_dependents("db").is_empty());
    store.enabled_insert("app".to_string(), vec!["other".to_string()]);
    assert!(store.start_dependents("db").is_empty());
    store.enabled_insert("app".to_string(), vec!["web".to_string()]);
    assert_eq!(store.start_dependents("db"), vec!["app@web".to_string()]);
}

#[test]
fn enabled_services_start_in_dependency_order() {
    let mut store = Store::new();
    store.insert_unit(
        Name::from("app"),
        unit_with(vec![after(service("web"), &["app@db"]), service("db"), after(service("lost"), &["nothing"])]),
    );
    store.enabled_insert("app".to_string(), vec![]);
    let (order, unresolved) = store.start_services();
    assert_eq!(order, vec![(0, 1), (0, 0)]);
    assert_eq!(unresolved, vec![(0, 2)]);
    let svcs = store.unit("app").unwrap().service.as_ref().unwrap();
    assert!(svcs[0].state == ServiceState::Starting);
    assert!(svcs[2].state == ServiceState::Inactive);
}

#[test]
fn triggers_start_and_stop_on_state_changes() {
    let mut store = Store::new();
    let mut desk = service("desk");
    desk.start_on = Some(vec![FlowItem::Simple("u@user".to_string())]);
    let mut idle = service("idle");
    idle.stop_on = Some(vec![FlowItem::Simple("u@user".to_string())]);
    idle.state = ServiceState::Active;
    idle.pid = Some(5);
    store.insert_unit(
        Name::from("u"),
        Unit {
            service: Some(vec![desk, idle]),
            mount: None,
            state: Some(vec![StateDefinition(FlowDefinitionBase::named("user".to_string(), FlowPayloadType::String))]),
            signal: None,
            index: Vec::new(),
        },
    );
    let inst = FlowInstance { name: "u@user".to_string(), payload: FlowPayload::String("x".to_string()), flow_type: FlowType::State };
    let out = store.check_triggers(&inst, FlowChangeAction::Apply);
    assert_eq!(out.started, vec![(0, 0)]);
    assert_eq!(out.stopped, vec![(0, 1)]);
    assert_eq!(out.kills.len(), 1);
    assert_eq!(out.kills[0].pid, 5);
    let svcs = store.unit("u").unwrap().service.as_ref().unwrap();
    assert!(svcs[0].state == ServiceState::Starting);
    assert!(svcs[1].state == ServiceState::Stopping);

    let revert = store.check_triggers(&inst, FlowChangeAction::Revert);
    assert_eq!(revert.stopped, vec![(0, 0)]);
    assert_eq!(revert.started, vec![(0, 1)]);
}

#[test]
fn branching_services_follow_their_state() {
    let mut store = Store::new();
    let mut s = service("session");
    let mut cfg = BranchingConfig::default();
    cfg.enabled = true;
    cfg.source_state = "u@user".to_string();
    s.branching = Some(cfg);
    store.insert_unit(Name::from("u"), unit_with(vec![s]));
    let inst = FlowInstance {
        name: "u@user".to_string(),
        payload: FlowPayload::Json(FlowJson::from(r#"{"id":"alice"}"#.to_string())),
        flow_type: FlowType::State,
    };
    let plan = store.reconcile_state_branching(&inst, FlowChangeAction::Apply);
    assert_eq!(plan.spawn.len(), 1);
    assert_eq!(plan.spawn[0].key, "alice");
    assert_eq!((plan.spawn[0].unit, plan.spawn[0].service), (0, 0));
}

#[test]
fn persisted_enable_of_a_whole_unit() {
    let mut store = Store::new();
    store.insert_unit(Name::from("app"), unit_with(vec![service("a"), service("b")]));
    let plan = store.enable_unit("app", PersistMode::Yes);
    assert_eq!(plan.services, vec![0, 1]);
    assert!(plan.mounts.is_empty());
    assert!(store.enabled_contains("app"));
    assert!(store.enabled_get("app").unwrap().is_empty());
    let active = store.state_branches("active").unwrap();
    assert_eq!(active.len(), 1);
    assert_eq!(active[0].payload.to_string(), "app");
}

#[test]
fn namespaced_dependencies_resolve_across_units() {
    let mut store = Store::new();
    store.insert_unit(Name::from("myunit"), unit_with(vec![after(service("web-server"), &["net@online"])]));
    store.insert_unit(Name::from("net"), unit_with(vec![service("online")]));
    store.insert_unit(Name::from("tcp"), unit_with(vec![after(service("tcp-server"), &["myunit@web-server"]), after(service("bare"), &["web-server"])]));
    for u in ["myunit", "net", "tcp"] {
        store.enabled_insert(u.to_string(), vec![]);
    }
    let (order, unresolved) = store.start_services();
    assert_eq!(order, vec![(1, 0), (0, 0), (2, 0)]);
    assert_eq!(unresolved, vec![(2, 1)]);
}

#[test]
fn one_instance_per_branch_key() {
    let mut s = service("s");
    assert_eq!(branch_start(&s, "a"), BranchStart::Spawn);
    add_branch_instance(&mut s, "a", 5);
    assert_eq!(branch_start(&s, "a"), BranchStart::Exists);
    assert_eq!(branch_start(&s, "b"), BranchStart::Spawn);
    add_branch_instance(&mut s, "b", 6);
    let keys: Vec<&str> = s.branch_instances.iter().map(|b| b.key.as_str()).collect();
    assert_eq!(keys, vec!["a", "b"]);
    assert_eq!(s.branch_instances[1].pid, Some(6));
    assert!(s.branch_instances[1].state == ServiceState::Active);
}

#[test]
fn stopping_dependents_signals_their_process_groups() {
    let mut store = Store::new();
    let db = service("db");
    let mut web = after(service("web"), &["db"]);
    web.state = ServiceState::Active;
    web.pid = Some(40);
    web.branch_instances = vec![BranchServiceInstance { key: "k".to_string(), pid: Some(41), state: ServiceState::Active, retry_count: 0 }];
    let mut api = after(service("api"), &["web"]);
    api.state = ServiceState::Active;
    api.pid = Some(50);
    store.insert_unit(Name::from("app"), unit_with(vec![db, web, api]));

    let (stopped, kills) = store.stop_dependents("db", StopMode::ForceKill);
    assert_eq!(stopped, vec!["app@web".to_string(), "app@api".to_string()]);
    let pids: Vec<u32> = kills.iter().map(|k| k.pid).collect();
    assert_eq!(pids, vec![40, 41, 50]);
    assert!(kills.iter().all(|k| k.signal == StopSignal::Kill));
    let svcs = store.unit("app").unwrap().service.as_ref().unwrap();
    assert!(svcs[1].state == ServiceState::Stopping);
    assert!(svcs[2].state == ServiceState::Stopping);
}
