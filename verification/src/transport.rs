//! Transport protocols: how flows reach services and detached subscribers, and
//! what a message that comes back through a transport asks of the store.
use crate::flow::{FlowPayload, FlowType, FlowMatchOperation};
use crate::text::{owned, split_once_spec, split_once_char, chars_of, string_from_range, str_eq};
use crate::triggers::{payload_to_filter, filter_of_payload};
use vstd::prelude::*;

verus! {

/// The identifier of a transport protocol (`stdio`, `uds`, `env`, `args`).
pub struct TransportID(pub String);

impl TransportID {
    /// The identifier for a name.
    pub fn from_str(value: &str) -> (r: Self)
        ensures
            r.0@ == value@,
    {
        TransportID(owned(value))
    }
}

/// A transport named alone or with options.
pub enum TransportMethod {
    Simple(TransportID),
    Options { id: TransportID, options: Vec<String> },
}

pub open spec fn method_id(m: TransportMethod) -> Seq<char> {
    match m {
        TransportMethod::Simple(id) => id.0@,
        TransportMethod::Options { id, .. } => id.0@,
    }
}

pub open spec fn method_options(m: TransportMethod) -> Seq<Seq<char>> {
    match m {
        TransportMethod::Simple(_) => Seq::empty(),
        TransportMethod::Options { options, .. } => options@.map_values(|o: String| o@),
    }
}

/// Copies a list of strings.
pub fn clone_strings(v: &Vec<String>) -> (r: Vec<String>)
    ensures
        r@.map_values(|x: String| x@) == v@.map_values(|x: String| x@),
{
    let mut out: Vec<String> = Vec::new();
    let mut i: usize = 0;
    while i < v.len()
        invariant
            i <= v@.len(),
            out@.map_values(|x: String| x@) == v@.subrange(0, i as int).map_values(|x: String| x@),
        decreases v@.len() - i,
    {
        let ghost before = out@;
        let c = v[i].clone();
        out.push(c);
        assert(out@.map_values(|x: String| x@) =~= before.map_values(|x: String| x@).push(v@[i as int]@));
        assert(v@.subrange(0, i + 1) =~= v@.subrange(0, i as int).push(v@[i as int]));
        i = i + 1;
        assert(out@.map_values(|x: String| x@) =~= v@.subrange(0, i as int).map_values(|x: String| x@));
    }
    assert(v@.subrange(0, v@.len() as int) =~= v@);
    out
}

impl TransportMethod {
    /// The transport's identifier.
    pub fn as_id(&self) -> (r: &TransportID)
        ensures
            r.0@ == method_id(*self),
    {
        match self {
            TransportMethod::Simple(id) => id,
            TransportMethod::Options { id, options: _ } => id,
        }
    }

    /// The transport's options; none for a simple method.
    pub fn options(&self) -> (r: Vec<String>)
        ensures
            r@.map_values(|x: String| x@) == method_options(*self),
    {
        match self {
            TransportMethod::Simple(_) => {
                let out: Vec<String> = Vec::new();
                assert(out@.map_values(|x: String| x@) =~= Seq::<Seq<char>>::empty());
                out
            },
            TransportMethod::Options { id: _, options } => clone_strings(options),
        }
    }
}

/// When a transport is initialised.
#[derive(Clone, Copy, PartialEq, Eq, Structural, Debug)]
pub enum TransportInitStage {
    DetachedBoot,
    ServicePreStart,
    ServicePostStart,
}

/// What a transport learns when it is initialised.
pub struct TransportInitContext<'a> {
    pub endpoint: &'a str,
    pub flow_type: FlowType,
    pub detached: bool,
    pub stage: TransportInitStage,
}

/// Whether a message sets or removes a state.
#[derive(Clone, Copy, PartialEq, Eq, Structural, Debug)]
pub enum TransportMessageAction {
    Put,
    Remove,
}

impl Default for TransportMessageAction {
    fn default() -> (r: Self)
        ensures
            r == TransportMessageAction::Put,
    {
        TransportMessageAction::Put
    }
}

/// What one delivery of a flow to the transports carries and collects.
pub struct TransportContext<'a> {
    records: Vec<FlowPayload>,
    pub input: &'a FlowPayload,
    pub except: &'a Vec<String>,
    pub action: TransportMessageAction,
    stop: bool,
}

impl<'a> TransportContext<'a> {
    /// A context with no records that is not stopped.
    pub fn new(input: &'a FlowPayload, except: &'a Vec<String>, action: TransportMessageAction) -> (r: Self)
        ensures
            r.input_payload() == *input,
            r.excepted() == except@,
            r.message_action() == action,
            r.recorded().len() == 0,
            !r.is_stopped(),
    {
        TransportContext { input, except, action, records: Vec::new(), stop: false }
    }

    pub closed spec fn input_payload(&self) -> FlowPayload {
        *self.input
    }

    pub closed spec fn excepted(&self) -> Seq<String> {
        self.except@
    }

    pub closed spec fn message_action(&self) -> TransportMessageAction {
        self.action
    }

    pub closed spec fn recorded(&self) -> Seq<FlowPayload> {
        self.records@
    }

    pub closed spec fn is_stopped(&self) -> bool {
        self.stop
    }

    /// Marks the delivery as stopped.
    pub fn stop(&mut self)
        ensures
            final(self).is_stopped(),
            final(self).recorded() == old(self).recorded(),
            final(self).input_payload() == old(self).input_payload(),
            final(self).excepted() == old(self).excepted(),
            final(self).message_action() == old(self).message_action(),
    {
        self.stop = true;
    }

    /// Whether the delivery was stopped.
    pub fn stopped(&self) -> (r: bool)
        ensures
            r == self.is_stopped(),
    {
        self.stop
    }

    /// The payloads recorded so far.
    pub fn records(&self) -> (r: &Vec<FlowPayload>)
        ensures
            r@ == self.recorded(),
    {
        &self.records
    }

    /// Records a payload that a transport answered.
    pub fn record(&mut self, payload: FlowPayload)
        ensures
            final(self).recorded() == old(self).recorded().push(payload),
            final(self).is_stopped() == old(self).is_stopped(),
            final(self).input_payload() == old(self).input_payload(),
            final(self).excepted() == old(self).excepted(),
            final(self).message_action() == old(self).message_action(),
    {
        self.records.push(payload);
    }

    /// Forgets the recorded payloads.
    pub fn clear_records(&mut self)
        ensures
            final(self).recorded().len() == 0,
            final(self).is_stopped() == old(self).is_stopped(),
            final(self).input_payload() == old(self).input_payload(),
            final(self).excepted() == old(self).excepted(),
            final(self).message_action() == old(self).message_action(),
    {
        self.records.clear();
    }
}

/// The kind of a transport message.
#[derive(Clone, Copy, PartialEq, Eq, Structural, Debug)]
pub enum TransportMessageType {
    Signal,
    State,
    Enquiry,
    Respose,
}

/// A message that a service or subscriber sends through a transport.
pub struct TransportMessage {
    pub message_type: TransportMessageType,
    pub payload: Option<FlowPayload>,
    pub name: Option<String>,
    pub action: TransportMessageAction,
}

/// What the store does with a message.
pub enum MessageEffect {
    Nothing,
    EmitSignal { name: String, payload: Option<FlowPayload> },
    SetState { name: String, payload: Option<FlowPayload> },
    RemoveState { name: String, filter: Option<FlowMatchOperation> },
}

/// The effect that handling a message has: enquiries,
/// responses and messages without a name do nothing; a signal is emitted; a
/// state is set, or removed with the filter that its payload gives.
pub open spec fn message_effect_spec(msg: TransportMessage, e: MessageEffect) -> bool {
    match msg.message_type {
        TransportMessageType::Enquiry | TransportMessageType::Respose => e is Nothing,
        TransportMessageType::Signal => match msg.name {
            None => e is Nothing,
            Some(n) => e matches MessageEffect::EmitSignal { name, payload } && name@ == n@
                && payload == msg.payload,
        },
        TransportMessageType::State => match msg.name {
            None => e is Nothing,
            Some(n) => if msg.action == TransportMessageAction::Remove {
                e matches MessageEffect::RemoveState { name, filter } && name@ == n@ && match msg.payload {
                    None => filter is None,
                    Some(p) => filter_of_payload(p, filter),
                }
            } else {
                e matches MessageEffect::SetState { name, payload } && name@ == n@ && payload
                    == msg.payload
            },
        },
    }
}

/// Decides what a message asks of the store (the decision part of handling it).
pub fn message_effect(msg: TransportMessage) -> (e: MessageEffect)
    ensures
        message_effect_spec(msg, e),
{
    let ghost m = msg;
    let TransportMessage { message_type, payload, name, action } = msg;
    match message_type {
        TransportMessageType::Enquiry => MessageEffect::Nothing,
        TransportMessageType::Respose => MessageEffect::Nothing,
        TransportMessageType::Signal => match name {
            None => MessageEffect::Nothing,
            Some(n) => MessageEffect::EmitSignal { name: n, payload },
        },
        TransportMessageType::State => match name {
            None => MessageEffect::Nothing,
            Some(n) => if action == TransportMessageAction::Remove {
                let filter = match &payload {
                    Some(p) => payload_to_filter(p),
                    None => None,
                };
                MessageEffect::RemoveState { name: n, filter }
            } else {
                MessageEffect::SetState { name: n, payload }
            },
        },
    }
}

/// Whether and why a transport is initialised.
#[derive(Clone, Copy, PartialEq, Eq, Structural, Debug)]
pub enum TransportInitDecision {
    /// The transport is attached to services only and cannot be detached.
    ServiceOnly,
    /// The transport carries states only.
    StateOnly,
    /// The transport is initialised at another stage.
    OtherStage,
    /// The transport is initialised now.
    Init,
}

pub open spec fn is_env_or_args(id: Seq<char>) -> bool {
    id == "env"@ || id == "args"@
}

/// The rule of `init_transport_method`: `stdio`, `env` and `args` serve services
/// only; `env` and `args` carry states only and are set up before the service
/// starts; `stdio` is set up after it started; any other transport is set up
/// whenever it is asked.
pub open spec fn init_decision_spec(
    id: Seq<char>,
    flow_type: FlowType,
    detached: bool,
    stage: TransportInitStage,
) -> TransportInitDecision {
    if detached && (id == "stdio"@ || is_env_or_args(id)) {
        TransportInitDecision::ServiceOnly
    } else if flow_type == FlowType::Signal && is_env_or_args(id) {
        TransportInitDecision::StateOnly
    } else if is_env_or_args(id) && stage != TransportInitStage::ServicePreStart {
        TransportInitDecision::OtherStage
    } else if id == "stdio"@ && stage != TransportInitStage::ServicePostStart {
        TransportInitDecision::OtherStage
    } else {
        TransportInitDecision::Init
    }
}

/// Decides whether a transport is initialised (the checks of `init_transport_method`).
pub fn init_decision(id: &str, flow_type: FlowType, detached: bool, stage: TransportInitStage) -> (r:
    TransportInitDecision)
    ensures
        r == init_decision_spec(id@, flow_type, detached, stage),
{
    let is_stdio = str_eq(id, "stdio");
    let is_env = str_eq(id, "env");
    let is_args = str_eq(id, "args");
    if detached && is_stdio {
        return TransportInitDecision::ServiceOnly;
    }
    if detached && (is_env || is_args) {
        return TransportInitDecision::ServiceOnly;
    }
    if flow_type == FlowType::Signal && (is_env || is_args) {
        return TransportInitDecision::StateOnly;
    }
    if (is_env || is_args) && stage != TransportInitStage::ServicePreStart {
        return TransportInitDecision::OtherStage;
    }
    if is_stdio && stage != TransportInitStage::ServicePostStart {
        return TransportInitDecision::OtherStage;
    }
    TransportInitDecision::Init
}

/// The transport that passes states to a service through its arguments.
pub struct ArgsTransportProtocol;

/// The transport that passes states to a service through its environment.
pub struct EnvTransportProtocol;

/// The transport that talks to a service through its standard input and output.
pub struct StdioTransportProtocol;

/// One option of the `env` transport: `KEY=value`, or `KEY=state:NAME` to take
/// the first branch of a state; an option without `=` is skipped.
pub enum EnvOption {
    Literal { key: String, value: String },
    StateRef { key: String, state: String },
    Skip,
}

pub open spec fn state_prefix() -> Seq<char> {
    "state:"@
}

pub open spec fn env_option_spec(option: Seq<char>, r: EnvOption) -> bool {
    match split_once_spec(option, '=') {
        None => r is Skip,
        Some((k, v)) => if v.len() >= 6 && v.subrange(0, 6) == state_prefix() {
            r matches EnvOption::StateRef { key, state } && key@ == k && state@ == v.subrange(
                6,
                v.len() as int,
            )
        } else {
            r matches EnvOption::Literal { key, value } && key@ == k && value@ == v
        },
    }
}

impl EnvTransportProtocol {
    /// Reads one option of the `env` transport.
    pub fn parse_option(option: &str) -> (r: EnvOption)
        ensures
            env_option_spec(option@, r),
    {
        proof {
            reveal_strlit("state:");
        }
        match split_once_char(option, '=') {
            None => EnvOption::Skip,
            Some((key, value)) => {
                let v = chars_of(value.as_str());
                if v.len() >= 6 && v[0] == 's' && v[1] == 't' && v[2] == 'a' && v[3] == 't' && v[4]
                    == 'e' && v[5] == ':' {
                    assert(v@.subrange(0, 6) =~= state_prefix());
                    let state = string_from_range(&v, 6, v.len());
                    EnvOption::StateRef { key, state }
                } else {
                    proof {
                        if v@.len() >= 6 {
                            assert(v@.subrange(0, 6) != state_prefix()) by {
                                if v@.subrange(0, 6) == state_prefix() {
                                    assert(v@.subrange(0, 6)[0] == 's');
                                    assert(v@.subrange(0, 6)[1] == 't');
                                    assert(v@.subrange(0, 6)[2] == 'a');
                                    assert(v@.subrange(0, 6)[3] == 't');
                                    assert(v@.subrange(0, 6)[4] == 'e');
                                    assert(v@.subrange(0, 6)[5] == ':');
                                }
                            }
                        }
                    }
                    EnvOption::Literal { key, value }
                }
            },
        }
    }
}

} // verus!
