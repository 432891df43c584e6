use rind::flow::{FlowJson, FlowMatchOperation, FlowPayload, FlowType};
use rind::transport::{
    EnvOption, EnvTransportProtocol, MessageEffect, TransportContext, TransportID, TransportInitDecision,
    TransportInitStage, TransportMessage, TransportMessageAction, TransportMessageType, TransportMethod,
    init_decision, message_effect,
};

fn msg(t: TransportMessageType, name: Option<&str>, payload: Option<FlowPayload>, action: TransportMessageAction) -> TransportMessage {
    TransportMessage { message_type: t, payload, name: name.map(|s| s.to_string()), action }
}

#[test]
fn messages_ask_for_flow_changes() {
    assert!(matches!(
        message_effect(msg(TransportMessageType::Enquiry, Some("a@b"), None, TransportMessageAction::Put)),
        MessageEffect::Nothing
    ));
    assert!(matches!(
        message_effect(msg(TransportMessageType::Signal, None, None, TransportMessageAction::Put)),
        MessageEffect::Nothing
    ));
    match message_effect(msg(TransportMessageType::Signal, Some("tp@ping"), Some(FlowPayload::String("x".to_string())), TransportMessageAction::Put)) {
        MessageEffect::EmitSignal { name, payload } => {
            assert_eq!(name, "tp@ping");
            assert_eq!(payload.map(|p| p.to_string()), Some("x".to_string()));
        }
        _ => panic!("expected a signal"),
    }
    match message_effect(msg(TransportMessageType::State, Some("u@s"), None, TransportMessageAction::Put)) {
        MessageEffect::SetState { name, payload } => {
            assert_eq!(name, "u@s");
            assert!(payload.is_none());
        }
        _ => panic!("expected a set"),
    }
    match message_effect(msg(TransportMessageType::State, Some("u@s"), Some(FlowPayload::String("v".to_string())), TransportMessageAction::Remove)) {
        MessageEffect::RemoveState { name, filter } => {
            assert_eq!(name, "u@s");
            assert!(matches!(filter, Some(FlowMatchOperation::Eq(t)) if t == "v"));
        }
        _ => panic!("expected a removal"),
    }
    match message_effect(msg(TransportMessageType::State, Some("u@s"), Some(FlowPayload::Json(FlowJson::new(r#"{"id":"a"}"#.to_string()))), TransportMessageAction::Remove)) {
        MessageEffect::RemoveState { filter, .. } => match filter {
            Some(FlowMatchOperation::Options { binary: None, contains: None, filter: Some(v) }) => {
                assert_eq!(v.to_string(), r#"{"id":"a"}"#)
            }
            _ => panic!("expected a JSON filter"),
        },
        _ => panic!("expected a removal"),
    }
    match message_effect(msg(TransportMessageType::State, Some("u@s"), Some(FlowPayload::Bytes(vec![1])), TransportMessageAction::Remove)) {
        MessageEffect::RemoveState { filter, .. } => assert!(filter.is_none()),
        _ => panic!("expected a removal"),
    }
}

#[test]
fn when_transports_are_set_up() {
    assert_eq!(init_decision("stdio", FlowType::State, true, TransportInitStage::DetachedBoot), TransportInitDecision::ServiceOnly);
    assert_eq!(init_decision("env", FlowType::State, true, TransportInitStage::DetachedBoot), TransportInitDecision::ServiceOnly);
    assert_eq!(init_decision("args", FlowType::Signal, false, TransportInitStage::ServicePreStart), TransportInitDecision::StateOnly);
    assert_eq!(init_decision("env", FlowType::State, false, TransportInitStage::ServicePostStart), TransportInitDecision::OtherStage);
    assert_eq!(init_decision("env", FlowType::State, false, TransportInitStage::ServicePreStart), TransportInitDecision::Init);
    assert_eq!(init_decision("stdio", FlowType::State, false, TransportInitStage::ServicePreStart), TransportInitDecision::OtherStage);
    assert_eq!(init_decision("stdio", FlowType::State, false, TransportInitStage::ServicePostStart), TransportInitDecision::Init);
    assert_eq!(init_decision("uds", FlowType::Signal, true, TransportInitStage::DetachedBoot), TransportInitDecision::Init);
}

#[test]
fn env_options() {
    assert!(matches!(EnvTransportProtocol::parse_option("A=state:u@s"), EnvOption::StateRef { key, state } if key == "A" && state == "u@s"));
    assert!(matches!(EnvTransportProtocol::parse_option("A=b=c"), EnvOption::Literal { key, value } if key == "A" && value == "b=c"));
    assert!(matches!(EnvTransportProtocol::parse_option("A=stat"), EnvOption::Literal { key, value } if key == "A" && value == "stat"));
    assert!(matches!(EnvTransportProtocol::parse_option("plain"), EnvOption::Skip));
}

#[test]
fn methods_and_contexts() {
    let simple = TransportMethod::Simple(TransportID::from_str("uds"));
    assert_eq!(simple.as_id().0, "uds");
    assert!(simple.options().is_empty());
    let with = TransportMethod::Options { id: TransportID::from_str("env"), options: vec!["A=1".to_string()] };
    assert_eq!(with.as_id().0, "env");
    assert_eq!(with.options(), vec!["A=1".to_string()]);

    let input = FlowPayload::String("in".to_string());
    let except = vec!["svc".to_string()];
    let mut ctx = TransportContext::new(&input, &except, TransportMessageAction::Remove);
    assert!(!ctx.stopped());
    assert!(ctx.records().is_empty());
    ctx.record(FlowPayload::String("out".to_string()));
    assert_eq!(ctx.records().len(), 1);
    ctx.stop();
    assert!(ctx.stopped());
    ctx.clear_records();
    assert!(ctx.records().is_empty());
    assert_eq!(ctx.action, TransportMessageAction::Remove);
}
