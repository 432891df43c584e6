//! Flow definitions (states and signals), their payloads and instances.
use crate::json::{JsonModel, json_view, parse_json, json_text, json_parse, json_to_string, json_null, json_get, json_clone, json_as_array, json_as_str};
use crate::text::{has_substring, contains_str, owned};
use crate::transport::TransportMethod;

use vstd::prelude::*;
use vstd::utf8::*;

verus! {

/// A condition on a flow: either a bare flow name, or a state/signal name with
/// an optional matcher on the branch (states) or target (signals) payload.
pub enum FlowItem {
    Simple(String),
    Detailed {
        state: Option<String>,
        signal: Option<String>,
        target: Option<FlowMatchOperation>,
        branch: Option<FlowMatchOperation>,
    },
}

/// A matcher on a payload: equality with a text, or one of the options
/// (binary payload, substring, JSON subset filter).
pub enum FlowMatchOperation {
    Eq(String),
    Options { binary: Option<bool>, contains: Option<String>, filter: Option<serde_json::Value> },
}

#[derive(Clone, Copy, PartialEq, Eq, Structural, Debug)]
pub enum FlowType {
    Signal,
    State,
}

impl Default for FlowType {
    fn default() -> (r: Self)
        ensures
            r == FlowType::Signal,
    {
        FlowType::Signal
    }
}

/// A JSON payload, kept as the text it arrived in.
pub struct FlowJson {
    pub inner: String,
}

/// The model of a JSON payload text: what it parses to, or `Null` where it is not JSON.
pub open spec fn json_of_text(text: Seq<char>) -> JsonModel {
    match parse_json(text) {
        Some(m) => m,
        None => JsonModel::Null,
    }
}

impl View for FlowJson {
    type V = Seq<char>;

    open spec fn view(&self) -> Seq<char> {
        self.inner@
    }
}

impl FlowJson {
    /// Parses the payload; a text that is not JSON gives `Null`.
    pub fn into_json(&self) -> (r: serde_json::Value)
        ensures
            json_view(r) == json_of_text(self@),
    {
        match json_parse(self.inner.as_str()) {
            Some(v) => v,
            None => json_null(),
        }
    }

    /// The payload text.
    pub fn to_string(&self) -> (r: String)
        ensures
            r@ == self@,
    {
        self.inner.clone()
    }

    /// Replaces the payload by the compact text of `value`.
    pub fn swap(&mut self, value: serde_json::Value)
        ensures
            final(self)@ == json_text(json_view(value)),
    {
        self.inner = json_to_string(&value);
    }

    /// Wraps a text as a JSON payload.
    pub fn new(value: String) -> (r: Self)
        ensures
            r@ == value@,
    {
        FlowJson { inner: value }
    }

    /// A copy of the payload.
    pub fn duplicate(&self) -> (r: Self)
        ensures
            r@ == self@,
    {
        FlowJson { inner: self.inner.clone() }
    }
}

impl From<String> for FlowJson {
    fn from(value: String) -> (r: Self) {
        FlowJson { inner: value }
    }
}

impl vstd::std_specs::convert::FromSpecImpl<String> for FlowJson {
    open spec fn obeys_from_spec() -> bool {
        true
    }

    open spec fn from_spec(v: String) -> FlowJson {
        FlowJson { inner: v }
    }
}

/// A flow payload.
pub enum FlowPayload {
    Json(FlowJson),
    String(String),
    Bytes(Vec<u8>),
    Empty(bool),
}

/// `String::from_utf8`: the text that the bytes encode, `None` where they are not UTF-8.
#[verifier::external_body]
pub(crate) fn utf8_text(bytes: Vec<u8>) -> (r: Option<String>)
    ensures
        r is Some <==> valid_utf8(bytes@),
        r is Some ==> r->0@ == decode_utf8(bytes@),
{
    String::from_utf8(bytes).ok()
}

/// The text of a payload: the string, the JSON text, the bytes decoded as UTF-8
/// (empty where they are not UTF-8), or empty for no payload.
pub open spec fn payload_text(p: FlowPayload) -> Seq<char> {
    match p {
        FlowPayload::String(s) => s@,
        FlowPayload::Json(j) => j@,
        FlowPayload::Bytes(b) => if valid_utf8(b@) {
            decode_utf8(b@)
        } else {
            Seq::empty()
        },
        FlowPayload::Empty(_) => Seq::empty(),
    }
}

/// The string items of a JSON array, in order.
pub open spec fn string_items(items: Seq<JsonModel>) -> Seq<Seq<char>>
    decreases items.len(),
{
    if items.len() == 0 {
        Seq::empty()
    } else {
        let rest = string_items(items.drop_last());
        match items.last() {
            JsonModel::Str(s) => rest.push(s),
            _ => rest,
        }
    }
}

/// What `value_to_vec_string` gives: the string items of an array, or a single
/// empty string for any other value.
pub open spec fn value_strings(m: JsonModel) -> Seq<Seq<char>> {
    match m {
        JsonModel::Array(items) => string_items(items),
        _ => seq![Seq::<char>::empty()],
    }
}

/// Whether a payload contains `pat`: a substring of a string payload, or one of
/// the strings that `value_strings` gives for a JSON payload.
pub open spec fn payload_contains(p: FlowPayload, pat: Seq<char>) -> bool {
    match p {
        FlowPayload::String(s) => has_substring(s@, pat),
        FlowPayload::Json(j) => value_strings(json_of_text(j@)).contains(pat),
        FlowPayload::Bytes(_) => false,
        FlowPayload::Empty(_) => false,
    }
}

/// A JSON field of a payload: the member `field` of a JSON object payload.
pub open spec fn payload_field(p: FlowPayload, field: Seq<char>) -> Option<JsonModel> {
    match p {
        FlowPayload::Json(j) => match json_of_text(j@) {
            JsonModel::Object(m) => if m.dom().contains(field) {
                Some(m[field])
            } else {
                None
            },
            _ => None,
        },
        _ => None,
    }
}

/// Two payloads that hold the same data.
pub open spec fn same_payload(a: FlowPayload, b: FlowPayload) -> bool {
    match (a, b) {
        (FlowPayload::Json(x), FlowPayload::Json(y)) => x@ == y@,
        (FlowPayload::String(x), FlowPayload::String(y)) => x@ == y@,
        (FlowPayload::Bytes(x), FlowPayload::Bytes(y)) => x@ == y@,
        (FlowPayload::Empty(x), FlowPayload::Empty(y)) => x == y,
        _ => false,
    }
}

impl FlowPayload {
    /// The text of the payload (see `payload_text`).
    pub fn to_string(&self) -> (r: String)
        ensures
            r@ == payload_text(*self),
    {
        match self {
            FlowPayload::String(s) => s.clone(),
            FlowPayload::Json(s) => s.to_string(),
            FlowPayload::Bytes(s) => match utf8_text(s.clone()) {
                Some(t) => t,
                None => String::new(),
            },
            FlowPayload::Empty(_) => String::new(),
        }
    }

    /// Whether the payload contains `pat` (see `payload_contains`).
    pub fn contains(&self, pat: &String) -> (r: bool)
        ensures
            r == payload_contains(*self, pat@),
    {
        match self {
            FlowPayload::String(s) => contains_str(s.as_str(), pat.as_str()),
            FlowPayload::Json(s) => {
                let items = Self::value_to_vec_string(&s.into_json());
                let mut i: usize = 0;
                while i < items.len()
                    invariant
                        *self == FlowPayload::Json(*s),
                        i <= items@.len(),
                        items@.map_values(|x: String| x@) == value_strings(json_of_text(s@)),
                        forall|j: int| 0 <= j < i ==> items@[j]@ != pat@,
                    decreases items@.len() - i,
                {
                    if items[i] == *pat {
                        assert(items@.map_values(|x: String| x@)[i as int] == pat@);
                        assert(value_strings(json_of_text(s@)).contains(pat@));
                        assert(*self == FlowPayload::Json(*s));
                        assert(payload_contains(*self, pat@));
                        return true;
                    }
                    i = i + 1;
                }
                proof {
                    let m = items@.map_values(|x: String| x@);
                    if m.contains(pat@) {
                        let j = choose|j: int| 0 <= j < m.len() && m[j] == pat@;
                        assert(items@[j]@ == pat@);
                    }
                }
                false
            },
            FlowPayload::Bytes(_) => false,
            FlowPayload::Empty(_) => false,
        }
    }

    /// The member `field` of a JSON object payload.
    pub fn get_json_field(&self, field: &str) -> (r: Option<serde_json::Value>)
        ensures
            match payload_field(*self, field@) {
                Some(m) => r is Some && json_view(r->0) == m,
                None => r is None,
            },
    {
        match self {
            FlowPayload::Json(s) => {
                let v = s.into_json();
                match json_get(&v, field) {
                    Some(x) => Some(json_clone(x)),
                    None => None,
                }
            },
            _ => None,
        }
    }

    /// The string items of an array value; a single empty string for any other value.
    pub fn value_to_vec_string(value: &serde_json::Value) -> (r: Vec<String>)
        ensures
            r@.map_values(|x: String| x@) == value_strings(json_view(*value)),
    {
        match json_as_array(value) {
            Some(items) => {
                let mut out: Vec<String> = Vec::new();
                let mut i: usize = 0;
                let ghost models = items@.map_values(|x: serde_json::Value| json_view(x));
                while i < items.len()
                    invariant
                        i <= items@.len(),
                        models == items@.map_values(|x: serde_json::Value| json_view(x)),
                        out@.map_values(|x: String| x@) == string_items(
                            models.subrange(0, i as int),
                        ),
                    decreases items@.len() - i,
                {
                    let ghost before = out@;
                    match json_as_str(&items[i]) {
                        Some(s) => {
                            out.push(owned(s));
                        },
                        None => {},
                    }
                    proof {
                        let sub = models.subrange(0, i + 1);
                        assert(sub.drop_last() =~= models.subrange(0, i as int));
                        assert(sub.last() == json_view(items@[i as int]));
                    }
                    i = i + 1;
                    assert(out@.map_values(|x: String| x@) =~= string_items(
                        models.subrange(0, i as int),
                    ));
                }
                assert(models.subrange(0, items@.len() as int) =~= models);
                out
            },
            None => {
                let mut out: Vec<String> = Vec::new();
                out.push(String::new());
                assert(out@.map_values(|x: String| x@) =~= seq![Seq::<char>::empty()]);
                out
            },
        }
    }

    /// A copy of the payload.
    pub fn duplicate(&self) -> (r: FlowPayload)
        ensures
            same_payload(*self, r),
            payload_text(r) == payload_text(*self),
    {
        match self {
            FlowPayload::Json(j) => FlowPayload::Json(j.duplicate()),
            FlowPayload::String(s) => FlowPayload::String(s.clone()),
            FlowPayload::Bytes(b) => FlowPayload::Bytes(b.clone()),
            FlowPayload::Empty(x) => FlowPayload::Empty(*x),
        }
    }
}

/// A flow that is set (state) or emitted (signal), with its payload.
pub struct FlowInstance {
    pub name: String,
    pub payload: FlowPayload,
    pub flow_type: FlowType,
}

impl FlowInstance {
    /// A copy of the instance.
    pub fn duplicate(&self) -> (r: FlowInstance)
        ensures
            r.name@ == self.name@,
            r.flow_type == self.flow_type,
            same_payload(self.payload, r.payload),
    {
        FlowInstance { name: self.name.clone(), payload: self.payload.duplicate(), flow_type: self.flow_type }
    }
}

/// The payload type a flow definition declares.
#[derive(Clone, Copy, PartialEq, Eq, Structural, Debug)]
pub enum FlowPayloadType {
    Json,
    String,
    Bytes,
    Empty,
}

impl Default for FlowPayloadType {
    fn default() -> (r: Self)
        ensures
            r == FlowPayloadType::Json,
    {
        FlowPayloadType::Json
    }
}

/// Where an automatic payload puts the lines of the command output: into the
/// root, under one key, or one line under each key.
pub enum AutoPayloadInsert {
    One(String),
    Many(Vec<String>),
}

/// A command whose output becomes the payload of an automatically set state.
pub struct AutoPayloadConfig {
    pub eval: Option<String>,
    pub insert: Option<AutoPayloadInsert>,
    pub args: Option<Vec<String>>,
}

/// An action run when a service starts or stops.
pub struct Trigger {
    pub script: Option<String>,
    pub executable: Option<String>,
    pub args: Option<Vec<String>>,
    pub state: Option<String>,
    pub signal: Option<String>,
    pub payload: Option<serde_json::Value>,
}

/// What states and signals have in common.
pub struct FlowDefinitionBase {
    pub name: String,
    pub payload: FlowPayloadType,
    pub broadcast: Option<Vec<String>>,
    pub branch: Option<Vec<String>>,
    pub after: Option<Vec<FlowItem>>,
    pub subscribers: Option<Vec<TransportMethod>>,
    pub trigger: Option<Vec<Trigger>>,
    pub activate_on_none: Option<Vec<String>>,
    pub auto_payload: Option<AutoPayloadConfig>,
}

impl FlowDefinitionBase {
    /// A definition with a name and payload type and nothing else.
    pub fn named(name: String, payload: FlowPayloadType) -> (r: Self)
        ensures
            r.name@ == name@,
            r.payload == payload,
            r.broadcast is None,
            r.branch is None,
            r.after is None,
            r.subscribers is None,
            r.trigger is None,
            r.activate_on_none is None,
            r.auto_payload is None,
    {
        FlowDefinitionBase {
            name,
            payload,
            broadcast: None,
            branch: None,
            after: None,
            subscribers: None,
            trigger: None,
            activate_on_none: None,
            auto_payload: None,
        }
    }
}

/// A state definition.
pub struct StateDefinition(pub FlowDefinitionBase);

/// A signal definition.
pub struct SignalDefinition(pub FlowDefinitionBase);

/// The payloads a service answered to a flow.
pub struct FlowOutput {
    pub input: FlowPayload,
    pub outputs: Vec<FlowPayload>,
}

} // verus!
