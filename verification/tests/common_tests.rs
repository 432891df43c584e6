use rind::common::{next_segment_id, parse_u64, report_error, segment_name, InitConfig};
use rind::daemon::{i32_text, state_style, state_text, StateStyle, UnitType, DaemonReply};
use rind::logger::{decode_segment, entries_until, entry_record, frame_record, log_line, record_filter, LogEntry, LogLevel, RecordFilter};
use rind::name::Name;
use rind::services::{RestartPolicy, Service, ServiceId, ServiceState};
use rind::store::Store;
use rind::units::Unit;

fn service(name: &str) -> Service {
    Service {
        id: ServiceId(1),
        unit: Name::from(""),
        name: name.to_string(),
        executable: "/bin/svc".to_string(),
        args: vec!["-v".to_string()],
        env: None,
        after: Some(vec!["db".to_string()]),
        start_on: None,
        stop_on: None,
        on_start: None,
        on_stop: None,
        transport: None,
        branching: None,
        restart: RestartPolicy::OnFailure { max_retries: 1 },
        pid: Some(1),
        state: ServiceState::Active,
        retry_count: 0,
        manually_stopped: false,
        branch_instances: vec![],
    }
}

#[test]
fn default_config_has_expected_basics() {
    let cfg = InitConfig::default();
    assert_eq!(cfg.shell.executable.as_str(), "/bin/sh");
    assert!(!cfg.logger.log_path.is_empty());
}

#[test]
fn default_config_values() {
    let cfg = InitConfig::default();
    assert_eq!(cfg.units.path, "/etc/units");
    assert_eq!(cfg.units.fallback, "/etc/fallback.toml");
    assert_eq!(cfg.logger.max_segment_size, 33554432);
    assert_eq!(cfg.logger.batch_size, 256);
}

#[test]
fn error_lines() {
    assert_eq!(report_error("load", "bad file"), "[rind:error] load: bad file");
}

#[test]
fn unsigned_parsing_like_from_str() {
    assert_eq!(parse_u64("42"), Some(42));
    assert_eq!(parse_u64("+7"), Some(7));
    assert_eq!(parse_u64("00000003"), Some(3));
    assert_eq!(parse_u64("18446744073709551615"), Some(u64::MAX));
    assert_eq!(parse_u64("18446744073709551616"), None);
    assert_eq!(parse_u64(""), None);
    assert_eq!(parse_u64("+"), None);
    assert_eq!(parse_u64("-1"), None);
    assert_eq!(parse_u64("1a"), None);
    for text in ["0", "12", "+5", "99999999999", "x", " 1"] {
        assert_eq!(parse_u64(text), text.parse::<u64>().ok());
    }
}

#[test]
fn segment_ids_and_names() {
    assert_eq!(next_segment_id(&vec![]), 1);
    assert_eq!(next_segment_id(&vec!["00000003".to_string(), "notes".to_string(), "00000001".to_string()]), 4);
    assert_eq!(segment_name(7), "00000007.rlog");
    assert_eq!(segment_name(123456789), "123456789.rlog");
    assert_eq!(segment_name(7), format!("{:08}.rlog", 7));
}

#[test]
fn state_texts_as_debug() {
    assert_eq!(state_text(&ServiceState::Active), "Active");
    assert_eq!(state_text(&ServiceState::Exited(-3)), "Exited(-3)");
    assert_eq!(state_text(&ServiceState::Exited(0)), "Exited(0)");
    assert_eq!(state_text(&ServiceState::Error("a \"b\"".to_string())), "Error(\"a \\\"b\\\"\")");
    assert_eq!(i32_text(i32::MIN), "-2147483648");
    assert_eq!(state_style("Active"), StateStyle::Active);
    assert_eq!(state_style("Inactive"), StateStyle::Inactive);
    assert_eq!(state_style("Error(\"x\")"), StateStyle::Failed);
    assert_eq!(state_style("Crashed"), StateStyle::Failed);
    assert_eq!(state_style("Starting"), StateStyle::Other);
}

#[test]
fn daemon_requests() {
    let mut store = Store::new();
    store.insert_unit(Name::from("app"), Unit { service: Some(vec![service("svc")]), mount: None, state: None, signal: None, index: Vec::new() });
    let (reply, pos) = store.handle_start("app@svc");
    assert!(matches!(reply, DaemonReply::Ack(ref t) if t == "started app@svc"));
    assert_eq!(pos, Some((0, 0)));
    let (reply, pos) = store.handle_start("app@nope");
    assert!(matches!(reply, DaemonReply::Nack(ref t) if t == "Unit component not found: \"app@nope\""));
    assert_eq!(pos, None);
    let (reply, _, kills) = store.handle_stop("app@svc", true);
    assert!(matches!(reply, DaemonReply::Ack(ref t) if t == "stopped app@svc"));
    assert_eq!(kills.len(), 1);
    let (reply, plans) = store.handle_enable("app@*");
    assert!(matches!(reply, DaemonReply::Ack(ref t) if t == "enabled app@*"));
    assert_eq!(plans.len(), 2);
    assert_eq!(store.enabled_get("app").unwrap(), &vec!["*".to_string()]);
    assert_eq!(plans[0].1.services, vec![0]);
    assert!(plans[1].1.services.is_empty());
    let (_, plans) = store.handle_enable("app");
    assert_eq!(plans.len(), 1);
    assert_eq!(plans[0].1.services, vec![0]);
    assert!(store.enabled_get("app").unwrap().is_empty());
    let (_, plans) = store.handle_enable("app@svc");
    assert_eq!(plans[0].1.services, vec![0]);
    let (_, plans) = store.handle_disable("app");
    assert_eq!(plans.len(), 1);
    assert_eq!(plans[0].1.services, vec![0]);
    assert!(!store.enabled_contains("app"));

    match store.list_reply(UnitType::Service, "app@svc", &vec![], &vec![]) {
        DaemonReply::Service(s) => {
            assert_eq!(s.name, "svc");
            assert_eq!(s.last_state, "Stopping");
            assert!(s.restart);
            assert_eq!(s.after, Some(vec!["db".to_string()]));
            assert_eq!(s.pid, Some(1));
        },
        _ => panic!("expected a service"),
    }
    match store.list_reply(UnitType::Unknown, "", &vec![], &vec![]) {
        DaemonReply::Units(list) => {
            assert_eq!(list.len(), 1);
            assert_eq!(list[0].name, "app");
            assert_eq!(list[0].services, 1);
            assert_eq!(list[0].active_services, 0);
        },
        _ => panic!("expected units"),
    }
    assert!(matches!(store.list_reply(UnitType::Unit, "none", &vec![], &vec![]), DaemonReply::Failure(ref t) if t == "Unit not found"));
}

#[test]
fn a_record_ends_with_the_crc32_of_its_header_and_payload() {
    let (bytes, n) = frame_record(1, 2, 3, &b"123456789".to_vec());
    assert_eq!(n, 42);
    assert_eq!(&bytes[0..4], &[0x52, 0x4C, 0x4F, 0x47]);
    assert_eq!(&bytes[4..8], &[0, 0, 0, 38]);
    assert_eq!(&bytes[29..38], b"123456789");
    assert_eq!(&bytes[38..42], &[0x78, 0x07, 0x02, 0x60]);
}

#[test]
fn log_records_read_back_as_written() {
    let mut seg: Vec<u8> = Vec::new();
    let (a, na) = frame_record(100, 0, 11, &vec![1, 2, 3]);
    let (b, _) = frame_record(200, 1, 22, &vec![9]);
    assert_eq!(na, a.len());
    seg.extend_from_slice(&a);
    seg.extend_from_slice(&b);
    let all = decode_segment(&seg, &RecordFilter { service: None, min_level: None, start: None }).ok().unwrap();
    assert_eq!(all.len(), 2);
    assert_eq!((all[0].timestamp, all[0].level, all[0].service_hash, all[0].payload.clone()), (100, 0, 11, vec![1, 2, 3]));
    assert_eq!((all[1].timestamp, all[1].payload.clone()), (200, vec![9]));
    let some = decode_segment(&seg, &RecordFilter { service: Some(22), min_level: None, start: None }).ok().unwrap();
    assert_eq!(some.len(), 1);
    assert_eq!(some[0].timestamp, 200);
    let mut bad = seg.clone();
    let last = bad.len() - 1;
    bad[last] ^= 0xff;
    let read = decode_segment(&bad, &RecordFilter { service: None, min_level: None, start: None }).ok().unwrap();
    assert_eq!(read.len(), 1);
}

fn entry(ts: u64, msg: &str) -> LogEntry {
    LogEntry { timestamp: ts, service: "svc".to_string(), pid: 7, level: LogLevel::Info, message: msg.to_string(), fields: None }
}

#[test]
fn log_entries_until_an_end_stamp() {
    let all = vec![entry(5, "a"), entry(20, "b"), entry(10, "c"), entry(11, "d")];
    let kept = entries_until(all, Some(10));
    let msgs: Vec<&str> = kept.iter().map(|e| e.message.as_str()).collect();
    assert_eq!(msgs, vec!["a", "c"]);

    let all = vec![entry(5, "a"), entry(20, "b")];
    assert_eq!(entries_until(all, None).len(), 2);
    assert_eq!(entries_until(vec![], Some(0)).len(), 0);
}

#[test]
fn query_filters_select_records_by_service_level_and_time() {
    let mut seg: Vec<u8> = Vec::new();
    let a = entry(5, "a");
    let mut b = entry(6, "b");
    b.service = "other".to_string();
    b.level = LogLevel::Error;
    seg.extend_from_slice(&entry_record(&a, 100, &vec![1]).0);
    seg.extend_from_slice(&entry_record(&b, 200, &vec![2]).0);

    let by_service = record_filter(Some("svc"), None, None);
    assert!(by_service.service.is_some());
    assert_eq!(by_service.min_level, None);
    let found = decode_segment(&seg, &by_service).ok().unwrap();
    assert_eq!(found.len(), 1);
    assert_eq!(found[0].payload, vec![1]);
    assert_ne!(record_filter(Some("svc"), None, None).service, record_filter(Some("other"), None, None).service);

    let errors = record_filter(None, Some(LogLevel::Error), None);
    assert_eq!(errors.min_level, Some(1));
    let found = decode_segment(&seg, &errors).ok().unwrap();
    assert_eq!(found.len(), 1);
    assert_eq!(found[0].timestamp, 200);

    let late = record_filter(None, None, Some(150));
    assert_eq!(late.start, Some(150));
    assert_eq!(decode_segment(&seg, &late).ok().unwrap().len(), 1);
}

#[test]
fn printed_log_lines() {
    let mut e = entry(90061, "hello");
    e.level = LogLevel::Warn;
    assert_eq!(log_line(&e), "[Day 1 01:01:01] [svc:7] WARN: hello");
}
