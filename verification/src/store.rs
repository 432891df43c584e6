//! The store: the loaded units, which of them are enabled, and the branches of
//! every state that is set.
use crate::flow::{FlowDefinitionBase, FlowInstance, FlowPayload, FlowPayloadType, FlowType, SignalDefinition, StateDefinition, payload_field};
use crate::json::{JsonModel, json_text, json_to_string};
use crate::keyed::{Keyed, keys_unique, table, find_key, get_key, insert_key, remove_key, lemma_table_at};
use crate::name::Name;
use crate::text::{trim_spec, has_char, lemma_first_index, lemma_split_join, lemma_nonempty_trimmed_id, owned, concat, str_eq, split_once_char, split_once_spec, split_trimmed, split_spec, nonempty_trimmed, chars_of, string_from_range, join, join_spec};
use crate::units::{Unit, Mount, index_lookup, index_model, state_names, signal_names};
use crate::services::Service;
use vstd::prelude::*;

verus! {

/// Whether a change of the enabled units is written to the persisted state.
#[derive(Clone, Copy, PartialEq, Eq, Structural, Debug)]
pub enum PersistMode {
    Yes,
    No,
}

/// The loaded units by name, the enabled units with the components they are
/// limited to (none: the whole unit), and the branches of each set state.
pub struct Store {
    pub units: Vec<Keyed<Unit>>,
    pub enabled: Vec<Keyed<Vec<String>>>,
    pub states: Vec<Keyed<Vec<FlowInstance>>>,
}

/// The texts of a list of strings, as a set.
pub open spec fn strings_set(v: Vec<String>) -> Set<Seq<char>> {
    Set::new(|x: Seq<char>| exists|i: int| 0 <= i < v@.len() && (#[trigger] v@[i])@ == x)
}

/// No text occurs twice in the list.
pub open spec fn no_dups(v: Vec<String>) -> bool {
    forall|i: int, j: int| 0 <= i < v@.len() && 0 <= j < v@.len() && i != j ==> (#[trigger] v@[i])@ != (#[trigger] v@[j])@
}

impl Store {
    /// No name occurs twice in any table, and no component twice in a filter.
    pub open spec fn wf(&self) -> bool {
        &&& keys_unique(self.units@)
        &&& keys_unique(self.enabled@)
        &&& keys_unique(self.states@)
        &&& forall|i: int| 0 <= i < self.enabled@.len() ==> no_dups(#[trigger] self.enabled@[i].value)
    }

    /// The enabled units, each with the set of components it is limited to.
    pub open spec fn enabled_sets(&self) -> Map<Seq<char>, Set<Seq<char>>> {
        Map::new(
            |k: Seq<char>| table(self.enabled@).contains_key(k),
            |k: Seq<char>| strings_set(table(self.enabled@)[k]),
        )
    }

    /// The branches of each set state.
    pub open spec fn state_map(&self) -> Map<Seq<char>, Seq<FlowInstance>> {
        Map::new(|k: Seq<char>| table(self.states@).contains_key(k), |k: Seq<char>| table(self.states@)[k]@)
    }

    /// An empty store.
    pub fn new() -> (r: Self)
        ensures
            r.wf(),
            r.units@.len() == 0,
            r.enabled@.len() == 0,
            r.states@.len() == 0,
    {
        Store { units: Vec::new(), enabled: Vec::new(), states: Vec::new() }
    }

    /// The number of loaded units.
    pub fn len(&self) -> (r: usize)
        ensures
            r == self.units@.len(),
    {
        self.units.len()
    }

    /// Adds (or replaces) the unit `name`, with its index built.
    pub fn insert_unit(&mut self, name: Name, unit: Unit)
        requires
            old(self).wf(),
        ensures
            final(self).wf(),
            final(self).enabled == old(self).enabled,
            final(self).states == old(self).states,
            table(final(self).units@).dom() == table(old(self).units@).dom().insert(name@),
            forall|k: Seq<char>| k != name@ && #[trigger] table(old(self).units@).contains_key(k) ==> table(final(self).units@)[k] == table(old(self).units@)[k],
            index_model(table(final(self).units@)[name@].index@) == crate::units::index_spec(unit),
            crate::units::service_names(table(final(self).units@)[name@]) == crate::units::service_names(unit),
            state_names(table(final(self).units@)[name@]) == state_names(unit),
            signal_names(table(final(self).units@)[name@]) == signal_names(unit),
            table(final(self).units@)[name@].mount == unit.mount,
            table(final(self).units@)[name@].state == unit.state,
            table(final(self).units@)[name@].signal == unit.signal,
    {
        let mut unit = unit;
        unit.build_index(&name);
        let key = name.to_string();
        insert_key(&mut self.units, key, unit);
        proof {
            assert(table(self.units@).dom() =~= table(old(self).units@).dom().insert(name@));
        }
    }

    /// The unit `name`, if it is loaded.
    pub fn unit(&self, name: &str) -> (r: Option<&Unit>)
        requires
            self.wf(),
        ensures
            r matches Some(u) ==> table(self.units@).contains_key(name@) && table(self.units@)[name@] == *u,
            r is None ==> !table(self.units@).contains_key(name@),
    {
        get_key(&self.units, name)
    }

    /// The branches of the state `name`, if it is set.
    pub fn state_branches(&self, name: &str) -> (r: Option<&Vec<FlowInstance>>)
        requires
            self.wf(),
        ensures
            r matches Some(v) ==> self.state_map().contains_key(name@) && self.state_map()[name@] == v@,
            r is None ==> !self.state_map().contains_key(name@),
    {
        get_key(&self.states, name)
    }

    /// Sets the branches of the state `name`, replacing what it had.
    pub fn insert_state(&mut self, name: String, branches: Vec<FlowInstance>)
        requires
            old(self).wf(),
        ensures
            final(self).wf(),
            final(self).units == old(self).units,
            final(self).enabled == old(self).enabled,
            final(self).state_map() == old(self).state_map().insert(name@, branches@),
    {
        let ghost k = name@;
        let ghost b = branches@;
        insert_key(&mut self.states, name, branches);
        proof {
            assert(self.state_map() =~= old(self).state_map().insert(k, b));
        }
    }

    /// Removes the state `name` and gives its branches back.
    pub fn take_state(&mut self, name: &str) -> (r: Option<Vec<FlowInstance>>)
        requires
            old(self).wf(),
        ensures
            final(self).wf(),
            final(self).units == old(self).units,
            final(self).enabled == old(self).enabled,
            final(self).state_map() == old(self).state_map().remove(name@),
            r matches Some(v) ==> old(self).state_map().contains_key(name@) && old(self).state_map()[name@] == v@,
            r is None ==> !old(self).state_map().contains_key(name@),
    {
        let r = remove_key(&mut self.states, name);
        proof {
            assert(self.state_map() =~= old(self).state_map().remove(name@));
        }
        r
    }

    /// The components the enabled unit `name` is limited to, if it is enabled.
    pub fn enabled_get(&self, name: &str) -> (r: Option<&Vec<String>>)
        requires
            self.wf(),
        ensures
            r matches Some(v) ==> self.enabled_sets().contains_key(name@) && self.enabled_sets()[name@] == strings_set(*v),
            r is None ==> !self.enabled_sets().contains_key(name@),
    {
        get_key(&self.enabled, name)
    }

    /// Whether the unit `name` is enabled.
    pub fn enabled_contains(&self, name: &str) -> (r: bool)
        requires
            self.wf(),
        ensures
            r == self.enabled_sets().contains_key(name@),
    {
        find_key(&self.enabled, name).is_some()
    }

    /// The names of the enabled units.
    pub fn enabled_names(&self) -> (r: Vec<String>)
        requires
            self.wf(),
        ensures
            forall|i: int| 0 <= i < r@.len() ==> self.enabled_sets().contains_key(#[trigger] r@[i]@),
            forall|k: Seq<char>| #[trigger] self.enabled_sets().contains_key(k) ==> exists|i: int| 0 <= i < r@.len() && r@[i]@ == k,
    {
        let r = crate::keyed::table_keys(&self.enabled);
        proof {
            assert forall|i: int| 0 <= i < r@.len() implies self.enabled_sets().contains_key(#[trigger] r@[i]@) by {
                lemma_table_at(self.enabled@, i);
            }
            assert forall|k: Seq<char>| #[trigger] self.enabled_sets().contains_key(k) implies exists|i: int| 0 <= i < r@.len() && r@[i]@ == k by {
                let i = choose|i: int| crate::keyed::has_key_at(self.enabled@, k, i);
                assert(r@[i]@ == k);
            }
        }
        r
    }
}

/// The name of the unit that holds the built-in flows.
pub const BUILTIN_FLOW_UNIT: &'static str = "__rind";

/// The unit and position that the full name `unit@component` gives among the
/// components whose index keys begin with `prefix` (such as `state@`).
pub open spec fn component_pos(units: Seq<Keyed<Unit>>, prefix: Seq<char>, full: Seq<char>) -> Option<(Seq<char>, int)> {
    match split_once_spec(full, '@') {
        Some((u, c)) => if table(units).contains_key(u) {
            match index_lookup(index_model(table(units)[u].index@), prefix + c) {
                Some(p) => Some((u, p)),
                None => None,
            }
        } else {
            None
        },
        None => None,
    }
}

/// The state definition that a full name designates.
pub open spec fn state_def_spec(units: Seq<Keyed<Unit>>, full: Seq<char>) -> Option<FlowDefinitionBase> {
    match component_pos(units, "state@"@, full) {
        Some((u, p)) => match table(units)[u].state {
            Some(v) => if 0 <= p < v@.len() {
                Some(v@[p].0)
            } else {
                None
            },
            None => None,
        },
        None => None,
    }
}

/// The signal definition that a full name designates.
pub open spec fn signal_def_spec(units: Seq<Keyed<Unit>>, full: Seq<char>) -> Option<FlowDefinitionBase> {
    match component_pos(units, "signal@"@, full) {
        Some((u, p)) => match table(units)[u].signal {
            Some(v) => if 0 <= p < v@.len() {
                Some(v@[p].0)
            } else {
                None
            },
            None => None,
        },
        None => None,
    }
}

/// The service that a full name designates.
pub open spec fn service_spec(units: Seq<Keyed<Unit>>, full: Seq<char>) -> Option<Service> {
    match component_pos(units, "service@"@, full) {
        Some((u, p)) => match table(units)[u].service {
            Some(v) => if 0 <= p < v@.len() {
                Some(v@[p])
            } else {
                None
            },
            None => None,
        },
        None => None,
    }
}

/// The mount that a full name designates.
pub open spec fn mount_spec(units: Seq<Keyed<Unit>>, full: Seq<char>) -> Option<Mount> {
    match component_pos(units, "mount@"@, full) {
        Some((u, p)) => match table(units)[u].mount {
            Some(v) => if 0 <= p < v@.len() {
                Some(v@[p])
            } else {
                None
            },
            None => None,
        },
        None => None,
    }
}

/// The definition `check_flow` accepts: the named state or signal, when no
/// payload is given or the payload has the declared type.
pub open spec fn check_flow_spec(units: Seq<Keyed<Unit>>, flow_type: FlowType, name: Seq<char>, payload: Option<FlowPayload>) -> Option<FlowDefinitionBase> {
    let def = if flow_type == FlowType::State {
        state_def_spec(units, name)
    } else {
        signal_def_spec(units, name)
    };
    match def {
        Some(d) => match payload {
            None => Some(d),
            Some(p) => if crate::triggers::fits_type(p, d.payload) {
                Some(d)
            } else {
                None
            },
        },
        None => None,
    }
}

/// The names with `n` added at the end where it is missing.
/// A definition with a name and a string payload and nothing else.
pub open spec fn plain_def(d: FlowDefinitionBase, name: Seq<char>) -> bool {
    &&& d.name@ == name
    &&& d.payload == FlowPayloadType::String
    &&& d.broadcast is None
    &&& d.branch is None
    &&& d.after is None
    &&& d.subscribers is None
    &&& d.trigger is None
    &&& d.activate_on_none is None
    &&& d.auto_payload is None
}

/// The state definitions of a unit.
pub open spec fn state_bases(u: Unit) -> Seq<FlowDefinitionBase> {
    match u.state {
        Some(v) => v@.map_values(|s: StateDefinition| s.0),
        None => Seq::empty(),
    }
}

/// The signal definitions of a unit.
pub open spec fn signal_bases(u: Unit) -> Seq<FlowDefinitionBase> {
    match u.signal {
        Some(v) => v@.map_values(|s: SignalDefinition| s.0),
        None => Seq::empty(),
    }
}

/// `n` where no definition of `defs` bears that name.
pub open spec fn missing(defs: Seq<FlowDefinitionBase>, n: Seq<char>) -> Seq<Seq<char>> {
    if exists|i: int| 0 <= i < defs.len() && (#[trigger] defs[i]).name@ == n {
        Seq::empty()
    } else {
        seq![n]
    }
}

/// `f` is `o` followed by plain definitions named `added`, in order.
pub open spec fn extended_with(o: Seq<FlowDefinitionBase>, f: Seq<FlowDefinitionBase>, added: Seq<Seq<char>>) -> bool {
    &&& f.len() == o.len() + added.len()
    &&& f.subrange(0, o.len() as int) == o
    &&& forall|t: int| 0 <= t < added.len() ==> plain_def(#[trigger] f[o.len() + t], added[t])
}

pub open spec fn with_name(names: Seq<Seq<char>>, n: Seq<char>) -> Seq<Seq<char>> {
    if names.contains(n) {
        names
    } else {
        names.push(n)
    }
}

fn has_state_named(defs: &Vec<StateDefinition>, name: &str) -> (r: bool)
    ensures
        r == defs@.map_values(|s: StateDefinition| s.0.name@).contains(name@),
{
    let ghost names = defs@.map_values(|s: StateDefinition| s.0.name@);
    let mut i: usize = 0;
    while i < defs.len()
        invariant
            i <= defs@.len(),
            names == defs@.map_values(|s: StateDefinition| s.0.name@),
            forall|j: int| 0 <= j < i ==> names[j] != name@,
        decreases defs@.len() - i,
    {
        if str_eq(defs[i].0.name.as_str(), name) {
            assert(names[i as int] == name@);
            return true;
        }
        i = i + 1;
    }
    false
}

fn has_signal_named(defs: &Vec<SignalDefinition>, name: &str) -> (r: bool)
    ensures
        r == defs@.map_values(|s: SignalDefinition| s.0.name@).contains(name@),
{
    let ghost names = defs@.map_values(|s: SignalDefinition| s.0.name@);
    let mut i: usize = 0;
    while i < defs.len()
        invariant
            i <= defs@.len(),
            names == defs@.map_values(|s: SignalDefinition| s.0.name@),
            forall|j: int| 0 <= j < i ==> names[j] != name@,
        decreases defs@.len() - i,
    {
        if str_eq(defs[i].0.name.as_str(), name) {
            assert(names[i as int] == name@);
            return true;
        }
        i = i + 1;
    }
    false
}

impl Store {
    /// The state definition `unit@name`.
    pub fn lookup_state(&self, full: &str) -> (r: Option<&FlowDefinitionBase>)
        requires
            self.wf(),
        ensures
            r matches Some(d) ==> state_def_spec(self.units@, full@) == Some(*d),
            r is None ==> state_def_spec(self.units@, full@) is None,
    {
        match split_once_char(full, '@') {
            Some((u, c)) => match self.unit(u.as_str()) {
                Some(unit) => {
                    let key = concat("state@", c.as_str());
                    match unit.index_get(key.as_str()) {
                        Some(p) => match &unit.state {
                            Some(v) => if p < v.len() {
                                Some(&v[p].0)
                            } else {
                                None
                            },
                            None => None,
                        },
                        None => None,
                    }
                },
                None => None,
            },
            None => None,
        }
    }

    /// The signal definition `unit@name`.
    pub fn lookup_signal(&self, full: &str) -> (r: Option<&FlowDefinitionBase>)
        requires
            self.wf(),
        ensures
            r matches Some(d) ==> signal_def_spec(self.units@, full@) == Some(*d),
            r is None ==> signal_def_spec(self.units@, full@) is None,
    {
        match split_once_char(full, '@') {
            Some((u, c)) => match self.unit(u.as_str()) {
                Some(unit) => {
                    let key = concat("signal@", c.as_str());
                    match unit.index_get(key.as_str()) {
                        Some(p) => match &unit.signal {
                            Some(v) => if p < v.len() {
                                Some(&v[p].0)
                            } else {
                                None
                            },
                            None => None,
                        },
                        None => None,
                    }
                },
                None => None,
            },
            None => None,
        }
    }

    /// The service `unit@name`.
    pub fn lookup_service(&self, full: &str) -> (r: Option<&Service>)
        requires
            self.wf(),
        ensures
            r matches Some(d) ==> service_spec(self.units@, full@) == Some(*d),
            r is None ==> service_spec(self.units@, full@) is None,
    {
        match split_once_char(full, '@') {
            Some((u, c)) => match self.unit(u.as_str()) {
                Some(unit) => {
                    let key = concat("service@", c.as_str());
                    match unit.index_get(key.as_str()) {
                        Some(p) => match &unit.service {
                            Some(v) => if p < v.len() {
                                Some(&v[p])
                            } else {
                                None
                            },
                            None => None,
                        },
                        None => None,
                    }
                },
                None => None,
            },
            None => None,
        }
    }

    /// The mount `unit@target`.
    pub fn lookup_mount(&self, full: &str) -> (r: Option<&Mount>)
        requires
            self.wf(),
        ensures
            r matches Some(d) ==> mount_spec(self.units@, full@) == Some(*d),
            r is None ==> mount_spec(self.units@, full@) is None,
    {
        match split_once_char(full, '@') {
            Some((u, c)) => match self.unit(u.as_str()) {
                Some(unit) => {
                    let key = concat("mount@", c.as_str());
                    match unit.index_get(key.as_str()) {
                        Some(p) => match &unit.mount {
                            Some(v) => if p < v.len() {
                                Some(&v[p])
                            } else {
                                None
                            },
                            None => None,
                        },
                        None => None,
                    }
                },
                None => None,
            },
            None => None,
        }
    }

    /// The definition of the state or signal `name`, provided that the
    /// payload, where one is given, has the declared type.
    pub fn check_flow(&self, flow_type: FlowType, name: &str, payload: &Option<FlowPayload>) -> (r: Option<&FlowDefinitionBase>)
        requires
            self.wf(),
        ensures
            r matches Some(d) ==> check_flow_spec(self.units@, flow_type, name@, *payload) == Some(*d),
            r is None ==> check_flow_spec(self.units@, flow_type, name@, *payload) is None,
    {
        let def = if flow_type == FlowType::State {
            self.lookup_state(name)
        } else {
            self.lookup_signal(name)
        };
        match def {
            Some(d) => if crate::triggers::payload_fits(payload, d.payload) {
                Some(d)
            } else {
                None
            },
            None => None,
        }
    }

    /// Makes sure the built-in unit exists with the state `active` and the
    /// signals `activate` and `deactivate` (string payloads), keeping what it
    /// already declares.
    pub fn add_builtin_flow_defs(&mut self)
        requires
            old(self).wf(),
        ensures
            final(self).wf(),
            final(self).enabled == old(self).enabled,
            final(self).states == old(self).states,
            table(final(self).units@).dom() == table(old(self).units@).dom().insert(BUILTIN_FLOW_UNIT@),
            forall|k: Seq<char>|
                k != BUILTIN_FLOW_UNIT@ && #[trigger] table(old(self).units@).contains_key(k) ==> table(final(self).units@)[k]
                    == table(old(self).units@)[k],
            ({
                let old_states = if table(old(self).units@).contains_key(BUILTIN_FLOW_UNIT@) {
                    state_names(table(old(self).units@)[BUILTIN_FLOW_UNIT@])
                } else {
                    Seq::empty()
                };
                let old_signals = if table(old(self).units@).contains_key(BUILTIN_FLOW_UNIT@) {
                    signal_names(table(old(self).units@)[BUILTIN_FLOW_UNIT@])
                } else {
                    Seq::empty()
                };
                &&& state_names(table(final(self).units@)[BUILTIN_FLOW_UNIT@]) == with_name(old_states, "active"@)
                &&& signal_names(table(final(self).units@)[BUILTIN_FLOW_UNIT@]) == with_name(
                    with_name(old_signals, "activate"@),
                    "deactivate"@,
                )
            }),
            ({
                let had = table(old(self).units@).contains_key(BUILTIN_FLOW_UNIT@);
                let os = if had { state_bases(table(old(self).units@)[BUILTIN_FLOW_UNIT@]) } else { Seq::empty() };
                let og = if had { signal_bases(table(old(self).units@)[BUILTIN_FLOW_UNIT@]) } else { Seq::empty() };
                let f = table(final(self).units@)[BUILTIN_FLOW_UNIT@];
                &&& extended_with(os, state_bases(f), missing(os, "active"@))
                &&& extended_with(og, signal_bases(f), missing(og, "activate"@) + missing(og, "deactivate"@))
            }),
    {
        let taken = remove_key(&mut self.units, BUILTIN_FLOW_UNIT);
        let mut unit = match taken {
            Some(u) => u,
            None => Unit { service: None, mount: None, state: None, signal: None, index: Vec::new() },
        };
        let ghost u0 = unit;
        let mut states = match unit.state.take() {
            Some(v) => v,
            None => Vec::new(),
        };
        let ghost s0 = states@.map_values(|s: StateDefinition| s.0.name@);
        let ghost sb0 = states@.map_values(|s: StateDefinition| s.0);
        assert(s0 == state_names(u0));
        assert(sb0 == state_bases(u0));
        proof {
            reveal_strlit("active");
            reveal_strlit("activate");
            reveal_strlit("deactivate");
        }
        if !has_state_named(&states, "active") {
            states.push(StateDefinition(FlowDefinitionBase::named(owned("active"), FlowPayloadType::String)));
            assert(states@.map_values(|s: StateDefinition| s.0.name@) =~= s0.push("active"@));
            proof {
                assert forall|i: int| 0 <= i < sb0.len() implies (#[trigger] sb0[i]).name@ != "active"@ by {
                    assert(s0[i] == sb0[i].name@);
                }
                let sb1 = states@.map_values(|s: StateDefinition| s.0);
                assert(sb1.subrange(0, sb0.len() as int) =~= sb0);
                assert(sb1[sb0.len() as int] == states@[sb0.len() as int].0);
            }
        } else {
            proof {
                let i = choose|i: int| 0 <= i < s0.len() && s0[i] == "active"@;
                assert(sb0[i].name@ == "active"@);
                assert(missing(sb0, "active"@) =~= Seq::<Seq<char>>::empty());
                assert(sb0.subrange(0, sb0.len() as int) =~= sb0);
            }
        }
        assert(extended_with(sb0, states@.map_values(|s: StateDefinition| s.0), missing(sb0, "active"@)));
        unit.state = Some(states);
        let mut signals = match unit.signal.take() {
            Some(v) => v,
            None => Vec::new(),
        };
        let ghost g0 = signals@.map_values(|s: SignalDefinition| s.0.name@);
        let ghost gb0 = signals@.map_values(|s: SignalDefinition| s.0);
        assert(g0 == signal_names(u0));
        assert(gb0 == signal_bases(u0));
        if !has_signal_named(&signals, "activate") {
            signals.push(SignalDefinition(FlowDefinitionBase::named(owned("activate"), FlowPayloadType::String)));
            assert(signals@.map_values(|s: SignalDefinition| s.0.name@) =~= g0.push("activate"@));
            proof {
                assert forall|i: int| 0 <= i < gb0.len() implies (#[trigger] gb0[i]).name@ != "activate"@ by {
                    assert(g0[i] == gb0[i].name@);
                }
            }
        } else {
            proof {
                let i = choose|i: int| 0 <= i < g0.len() && g0[i] == "activate"@;
                assert(gb0[i].name@ == "activate"@);
            }
        }
        let ghost g1 = signals@.map_values(|s: SignalDefinition| s.0.name@);
        let ghost gb1 = signals@.map_values(|s: SignalDefinition| s.0);
        let ghost add_a = missing(gb0, "activate"@);
        assert(extended_with(gb0, gb1, add_a)) by {
            assert(gb1.subrange(0, gb0.len() as int) =~= gb0);
            if add_a.len() > 0 {
                assert(gb1[gb0.len() as int] == signals@[gb0.len() as int].0);
            }
        }
        if !has_signal_named(&signals, "deactivate") {
            signals.push(SignalDefinition(FlowDefinitionBase::named(owned("deactivate"), FlowPayloadType::String)));
            assert(signals@.map_values(|s: SignalDefinition| s.0.name@) =~= g1.push("deactivate"@));
            proof {
                assert forall|i: int| 0 <= i < gb0.len() implies (#[trigger] gb0[i]).name@ != "deactivate"@ by {
                    assert(gb1[i] == gb0[i]);
                    assert(g1[i] == gb1[i].name@);
                }
                let gb2 = signals@.map_values(|s: SignalDefinition| s.0);
                let added = add_a + missing(gb0, "deactivate"@);
                assert(gb2.subrange(0, gb0.len() as int) =~= gb0);
                assert forall|t: int| 0 <= t < added.len() implies plain_def(#[trigger] gb2[gb0.len() + t], added[t]) by {
                    if t < add_a.len() {
                        assert(gb2[gb0.len() + t] == gb1[gb0.len() + t]);
                    } else {
                        assert(gb2[gb0.len() + t] == signals@[gb1.len() as int].0);
                    }
                }
            }
        } else {
            proof {
                let i = choose|i: int| 0 <= i < g1.len() && g1[i] == "deactivate"@;
                assert(gb1[i].name@ == "deactivate"@);
                if i >= gb0.len() {
                    assert(gb1[i].name@ == "activate"@);
                } else {
                    assert(gb1[i] == gb0[i]);
                }
                assert(missing(gb0, "deactivate"@) =~= Seq::<Seq<char>>::empty());
                assert(add_a + missing(gb0, "deactivate"@) =~= add_a);
            }
        }
        assert(extended_with(gb0, signals@.map_values(|s: SignalDefinition| s.0), missing(gb0, "activate"@) + missing(gb0, "deactivate"@)));
        unit.signal = Some(signals);
        let ghost before = self.units@;
        self.insert_unit(Name::new(BUILTIN_FLOW_UNIT), unit);
        proof {
            assert(table(self.units@).dom() =~= table(old(self).units@).dom().insert(BUILTIN_FLOW_UNIT@));
        }
    }
}

/// The text between the braces of `{...}`.
pub open spec fn braced(rest: Seq<char>) -> Option<Seq<char>> {
    if rest.len() >= 2 && rest[0] == '{' && rest.last() == '}' {
        Some(rest.subrange(1, rest.len() - 1))
    } else {
        None
    }
}

/// The components listed after `@` in an enabled line: `{a, b}` lists `a`
/// and `b`; anything else lists none.
pub open spec fn line_filter(rest: Seq<char>) -> Seq<Seq<char>> {
    match braced(rest) {
        Some(inner) => nonempty_trimmed(split_spec(inner, ',')),
        None => Seq::empty(),
    }
}

/// What an enabled line says: `unit@{a,b}` enables `unit` limited to `a` and
/// `b`; `unit` enables the whole unit; the empty line says nothing.
pub open spec fn enabled_line_spec(line: Seq<char>) -> Option<(Seq<char>, Set<Seq<char>>)> {
    match split_once_spec(line, '@') {
        Some((u, rest)) => Some((u, line_filter(rest).to_set())),
        None => if line.len() > 0 {
            Some((line, Set::empty()))
        } else {
            None
        },
    }
}

/// The texts in order, each kept at its first occurrence.
pub open spec fn dedup_spec(s: Seq<Seq<char>>) -> Seq<Seq<char>>
    decreases s.len(),
{
    if s.len() == 0 {
        Seq::empty()
    } else {
        let r = dedup_spec(s.drop_last());
        if r.contains(s.last()) {
            r
        } else {
            r.push(s.last())
        }
    }
}

pub proof fn lemma_dedup(s: Seq<Seq<char>>)
    ensures
        forall|x: Seq<char>| dedup_spec(s).contains(x) <==> s.contains(x),
        forall|i: int, j: int|
            0 <= i < dedup_spec(s).len() && 0 <= j < dedup_spec(s).len() && i != j ==> dedup_spec(s)[i] != dedup_spec(s)[j],
    decreases s.len(),
{
    if s.len() > 0 {
        lemma_dedup(s.drop_last());
        let r = dedup_spec(s.drop_last());
        assert forall|x: Seq<char>| dedup_spec(s).contains(x) <==> s.contains(x) by {
            if s.contains(x) {
                let k = choose|k: int| 0 <= k < s.len() && s[k] == x;
                if k < s.len() - 1 {
                    assert(s.drop_last()[k] == x);
                    assert(s.drop_last().contains(x));
                    assert(r.contains(x));
                    let t = choose|t: int| 0 <= t < r.len() && r[t] == x;
                    if !r.contains(s.last()) {
                        assert(r.push(s.last())[t] == x);
                    }
                } else {
                    if !r.contains(s.last()) {
                        assert(r.push(s.last())[r.len() as int] == x);
                    }
                }
            }
            if dedup_spec(s).contains(x) {
                if x == s.last() {
                    assert(s[s.len() - 1] == x);
                } else {
                    let t = choose|t: int| 0 <= t < dedup_spec(s).len() && dedup_spec(s)[t] == x;
                    if !r.contains(s.last()) {
                        assert(t < r.len());
                        assert(r[t] == x);
                    }
                    assert(r.contains(x));
                    assert(s.drop_last().contains(x));
                    let k = choose|k: int| 0 <= k < s.drop_last().len() && s.drop_last()[k] == x;
                    assert(s[k] == x);
                }
            }
        }
    }
}

/// Removes repeated texts, keeping the first occurrence of each.
pub fn dedup(items: &Vec<String>) -> (r: Vec<String>)
    ensures
        r@.map_values(|x: String| x@) == dedup_spec(items@.map_values(|x: String| x@)),
        no_dups(r),
        strings_set(r) == items@.map_values(|x: String| x@).to_set(),
{
    let ghost iv = items@.map_values(|x: String| x@);
    let mut out: Vec<String> = Vec::new();
    let mut i: usize = 0;
    while i < items.len()
        invariant
            i <= items@.len(),
            iv == items@.map_values(|x: String| x@),
            out@.map_values(|x: String| x@) == dedup_spec(iv.subrange(0, i as int)),
        decreases items@.len() - i,
    {
        let ghost before = out@;
        assert(iv.subrange(0, i + 1).drop_last() =~= iv.subrange(0, i as int));
        let mut found = false;
        let mut j: usize = 0;
        while j < out.len()
            invariant
                j <= out@.len(),
                out@ == before,
                found == exists|t: int| 0 <= t < j && out@[t]@ == items@[i as int]@,
                i < items@.len(),
            decreases out@.len() - j,
        {
            if str_eq(out[j].as_str(), items[i].as_str()) {
                found = true;
            }
            j = j + 1;
        }
        proof {
            let ov = before.map_values(|x: String| x@);
            assert(found == ov.contains(iv[i as int])) by {
                if found {
                    let t = choose|t: int| 0 <= t < j && out@[t]@ == items@[i as int]@;
                    assert(ov[t] == iv[i as int]);
                }
                if ov.contains(iv[i as int]) {
                    let t = choose|t: int| 0 <= t < ov.len() && ov[t] == iv[i as int];
                    assert(out@[t]@ == items@[i as int]@);
                }
            }
        }
        if !found {
            out.push(items[i].clone());
            assert(out@.map_values(|x: String| x@) =~= before.map_values(|x: String| x@).push(iv[i as int]));
        }
        i = i + 1;
    }
    assert(iv.subrange(0, items@.len() as int) =~= iv);
    proof {
        lemma_dedup(iv);
        let ov = out@.map_values(|x: String| x@);
        assert forall|a: int, b: int| 0 <= a < out@.len() && 0 <= b < out@.len() && a != b implies (#[trigger] out@[a])@
            != (#[trigger] out@[b])@ by {
            assert(ov[a] == out@[a]@);
            assert(ov[b] == out@[b]@);
        }
        assert(strings_set(out) =~= iv.to_set()) by {
            assert forall|x: Seq<char>| strings_set(out).contains(x) <==> iv.to_set().contains(x) by {
                if strings_set(out).contains(x) {
                    let t = choose|t: int| 0 <= t < out@.len() && (#[trigger] out@[t])@ == x;
                    assert(ov[t] == x);
                    assert(ov.contains(x));
                }
                if iv.to_set().contains(x) {
                    assert(ov.contains(x));
                    let t = choose|t: int| 0 <= t < ov.len() && ov[t] == x;
                    assert(out@[t]@ == x);
                }
            }
        }
    }
    out
}

/// The text between the braces of `{...}`, if `s` is braced.
fn strip_braces(s: &str) -> (r: Option<String>)
    ensures
        match r {
            Some(t) => braced(s@) == Some(t@),
            None => braced(s@) is None,
        },
{
    let v = chars_of(s);
    let n = v.len();
    if n >= 2 && v[0] == '{' && v[n - 1] == '}' {
        Some(string_from_range(&v, 1, n - 1))
    } else {
        None
    }
}

/// A value of the table of enabled units is kept at the key the map gives it.
proof fn lemma_filters(s: Seq<Keyed<Vec<String>>>)
    requires
        keys_unique(s),
        forall|k: Seq<char>| #[trigger] table(s).contains_key(k) ==> no_dups(table(s)[k]),
    ensures
        forall|i: int| 0 <= i < s.len() ==> no_dups(#[trigger] s[i].value),
{
    assert forall|i: int| 0 <= i < s.len() implies no_dups(#[trigger] s[i].value) by {
        lemma_table_at(s, i);
    }
}

impl Store {
    /// Enables `name`, limited to the components of `filter`.
    pub fn enabled_insert(&mut self, name: String, filter: Vec<String>)
        requires
            old(self).wf(),
            no_dups(filter),
        ensures
            final(self).wf(),
            final(self).units == old(self).units,
            final(self).states == old(self).states,
            final(self).enabled_sets() == old(self).enabled_sets().insert(name@, strings_set(filter)),
    {
        let ghost k = name@;
        let ghost f = filter;
        insert_key(&mut self.enabled, name, filter);
        proof {
            assert forall|key: Seq<char>| #[trigger] table(self.enabled@).contains_key(key) implies no_dups(table(self.enabled@)[key]) by {
                if key != k {
                    let i = choose|i: int| crate::keyed::has_key_at(old(self).enabled@, key, i);
                    lemma_table_at(old(self).enabled@, i);
                }
            }
            lemma_filters(self.enabled@);
            assert(self.enabled_sets() =~= old(self).enabled_sets().insert(k, strings_set(f)));
        }
    }

    /// Reads one enabled line (see `enabled_line_spec`) into the enabled units.
    pub fn parse_enabled_line(&mut self, line: &str)
        requires
            old(self).wf(),
        ensures
            final(self).wf(),
            final(self).units == old(self).units,
            final(self).states == old(self).states,
            final(self).enabled_sets() == match enabled_line_spec(line@) {
                Some((u, f)) => old(self).enabled_sets().insert(u, f),
                None => old(self).enabled_sets(),
            },
    {
        match split_once_char(line, '@') {
            Some((u, rest)) => {
                let filter = match strip_braces(rest.as_str()) {
                    Some(inner) => {
                        let items = split_trimmed(inner.as_str(), ',');
                        dedup(&items)
                    },
                    None => {
                        let empty: Vec<String> = Vec::new();
                        assert(strings_set(empty) =~= Seq::<Seq<char>>::empty().to_set());
                        empty
                    },
                };
                self.enabled_insert(u, filter);
            },
            None => {
                if line.unicode_len() > 0 {
                    let empty: Vec<String> = Vec::new();
                    assert(strings_set(empty) =~= Set::<Seq<char>>::empty());
                    self.enabled_insert(owned(line), empty);
                }
            },
        }
    }
}

/// The line that records an enabled unit: its name, and the components it is
/// limited to as `name@{a,b}`.
pub open spec fn line_text(name: Seq<char>, filter: Seq<Seq<char>>) -> Seq<char> {
    if filter.len() == 0 {
        name
    } else {
        name + "@{"@ + join_spec(filter, ","@) + "}"@
    }
}

/// The lines of the enabled units, in table order.
pub open spec fn entry_lines(s: Seq<Keyed<Vec<String>>>) -> Seq<Seq<char>> {
    Seq::new(s.len(), |i: int| line_text(s[i].key@, s[i].value@.map_values(|x: String| x@)))
}

/// The line a branch of the `active` state records: a string payload is the
/// line; of a JSON payload, the JSON text of its `name` member.
pub open spec fn active_line(p: FlowPayload) -> Option<Seq<char>> {
    match p {
        FlowPayload::String(s) => Some(s@),
        FlowPayload::Json(_) => match payload_field(p, "name"@) {
            Some(m) => Some(json_text(m)),
            None => None,
        },
        _ => None,
    }
}

/// The branches whose line is one of `lines`, in order.
pub open spec fn kept_active(bs: Seq<FlowInstance>, lines: Seq<Seq<char>>) -> Seq<FlowInstance>
    decreases bs.len(),
{
    if bs.len() == 0 {
        Seq::empty()
    } else {
        let r = kept_active(bs.drop_last(), lines);
        match active_line(bs.last().payload) {
            Some(l) => if lines.contains(l) {
                r.push(bs.last())
            } else {
                r
            },
            None => r,
        }
    }
}

/// The lines of the branches that `kept_active` keeps, in order.
pub open spec fn present_lines(bs: Seq<FlowInstance>, lines: Seq<Seq<char>>) -> Seq<Seq<char>>
    decreases bs.len(),
{
    if bs.len() == 0 {
        Seq::empty()
    } else {
        let r = present_lines(bs.drop_last(), lines);
        match active_line(bs.last().payload) {
            Some(l) => if lines.contains(l) {
                r.push(l)
            } else {
                r
            },
            None => r,
        }
    }
}

/// The lines, in order, that are not among `present`.
pub open spec fn missing_lines(lines: Seq<Seq<char>>, present: Seq<Seq<char>>) -> Seq<Seq<char>>
    decreases lines.len(),
{
    if lines.len() == 0 {
        Seq::empty()
    } else {
        let r = missing_lines(lines.drop_last(), present);
        if present.contains(lines.last()) {
            r
        } else {
            r.push(lines.last())
        }
    }
}

/// A branch of the `active` state that records `line` as a string payload.
pub open spec fn records_line(b: FlowInstance, line: Seq<char>) -> bool {
    &&& b.name@ == "active"@
    &&& b.flow_type == FlowType::State
    &&& match b.payload {
        FlowPayload::String(s) => s@ == line,
        _ => false,
    }
}

/// The branches of the `active` state, none where it is not set.
pub open spec fn active_branches(m: Map<Seq<char>, Seq<FlowInstance>>) -> Seq<FlowInstance> {
    if m.contains_key("active"@) {
        m["active"@]
    } else {
        Seq::empty()
    }
}

/// `now` is what saving the enabled units makes of the `active` branches `a`:
/// the branches whose line is still enabled, in order, then one string branch
/// for each enabled line that none of them records.
pub open spec fn saved_active(enabled: Seq<Keyed<Vec<String>>>, a: Seq<FlowInstance>, now: Seq<FlowInstance>) -> bool {
    let lines = dedup_spec(entry_lines(enabled));
    let kept = kept_active(a, lines);
    let added = missing_lines(lines, present_lines(a, lines));
    &&& now.len() == kept.len() + added.len()
    &&& now.subrange(0, kept.len() as int) == kept
    &&& forall|j: int| kept.len() <= j < now.len() ==> records_line(#[trigger] now[j], added[j - kept.len()])
}

/// The line that records an enabled unit (see `line_text`).
pub fn enabled_line(name: &str, filter: &Vec<String>) -> (r: String)
    ensures
        r@ == line_text(name@, filter@.map_values(|x: String| x@)),
{
    if filter.len() == 0 {
        owned(name)
    } else {
        let parts = join(filter, ",");
        let a = concat(name, "@{");
        let b = concat(a.as_str(), parts.as_str());
        concat(b.as_str(), "}")
    }
}

/// The line an `active` branch records (see `active_line`).
pub fn active_line_of(p: &FlowPayload) -> (r: Option<String>)
    ensures
        match r {
            Some(t) => active_line(*p) == Some(t@),
            None => active_line(*p) is None,
        },
{
    match p {
        FlowPayload::String(s) => Some(s.clone()),
        FlowPayload::Json(_) => match p.get_json_field("name") {
            Some(v) => Some(json_to_string(&v)),
            None => None,
        },
        _ => None,
    }
}

pub fn contains_text(v: &Vec<String>, t: &str) -> (r: bool)
    ensures
        r == v@.map_values(|x: String| x@).contains(t@),
{
    let ghost vv = v@.map_values(|x: String| x@);
    let mut i: usize = 0;
    while i < v.len()
        invariant
            i <= v@.len(),
            vv == v@.map_values(|x: String| x@),
            forall|j: int| 0 <= j < i ==> vv[j] != t@,
        decreases v@.len() - i,
    {
        if str_eq(v[i].as_str(), t) {
            assert(vv[i as int] == t@);
            return true;
        }
        i = i + 1;
    }
    false
}

impl Store {
    /// The lines of the enabled units, without repeats (see `line_text`).
    pub fn enabled_lines(&self) -> (r: Vec<String>)
        ensures
            r@.map_values(|x: String| x@) == dedup_spec(entry_lines(self.enabled@)),
    {
        let mut raw: Vec<String> = Vec::new();
        let mut i: usize = 0;
        while i < self.enabled.len()
            invariant
                i <= self.enabled@.len(),
                raw@.len() == i,
                forall|j: int| 0 <= j < i ==> (#[trigger] raw@[j])@ == entry_lines(self.enabled@)[j],
            decreases self.enabled@.len() - i,
        {
            let l = enabled_line(self.enabled[i].key.as_str(), &self.enabled[i].value);
            raw.push(l);
            i = i + 1;
        }
        assert(raw@.map_values(|x: String| x@) =~= entry_lines(self.enabled@));
        dedup(&raw)
    }

    /// Brings the `active` state in line with the enabled units: its branches
    /// whose line is still enabled stay, the others go, and a string branch is
    /// added for each enabled line that none of them records.
    pub fn save_enabled(&mut self)
        requires
            old(self).wf(),
        ensures
            final(self).wf(),
            final(self).units == old(self).units,
            final(self).enabled == old(self).enabled,
            final(self).state_map().contains_key("active"@),
            final(self).state_map().remove("active"@) == old(self).state_map().remove("active"@),
            saved_active(old(self).enabled@, active_branches(old(self).state_map()), final(self).state_map()["active"@]),
    {
        let lines = self.enabled_lines();
        let ghost lv = lines@.map_values(|x: String| x@);
        let mut active = match self.take_state("active") {
            Some(v) => v,
            None => Vec::new(),
        };
        let ghost a = active@;
        let mut kept: Vec<FlowInstance> = Vec::new();
        let mut present: Vec<String> = Vec::new();
        let n = active.len();
        let mut i: usize = 0;
        while i < n
            invariant
                i <= n,
                n == a.len(),
                active@ == a.subrange(i as int, n as int),
                lv == lines@.map_values(|x: String| x@),
                kept@ == kept_active(a.subrange(0, i as int), lv),
                present@.map_values(|x: String| x@) == present_lines(a.subrange(0, i as int), lv),
            decreases n - i,
        {
            let inst = active.remove(0);
            assert(a.subrange(0, i + 1).drop_last() =~= a.subrange(0, i as int));
            assert(a.subrange(0, i + 1).last() == inst);
            match active_line_of(&inst.payload) {
                Some(l) => {
                    if contains_text(&lines, l.as_str()) {
                        let ghost pv = present@;
                        present.push(l);
                        assert(present@.map_values(|x: String| x@) =~= pv.map_values(|x: String| x@).push(l@));
                        kept.push(inst);
                    }
                },
                None => {},
            }
            i = i + 1;
            assert(active@ =~= a.subrange(i as int, n as int));
        }
        assert(a.subrange(0, n as int) =~= a);
        let ghost kv = kept@;
        let ghost pv = present@.map_values(|x: String| x@);
        let mut j: usize = 0;
        while j < lines.len()
            invariant
                j <= lines@.len(),
                lv == lines@.map_values(|x: String| x@),
                pv == present@.map_values(|x: String| x@),
                kept@.len() == kv.len() + missing_lines(lv.subrange(0, j as int), pv).len(),
                kept@.subrange(0, kv.len() as int) == kv,
                forall|t: int|
                    0 <= t < missing_lines(lv.subrange(0, j as int), pv).len() ==> records_line(
                        #[trigger] kept@[kv.len() + t],
                        missing_lines(lv.subrange(0, j as int), pv)[t],
                    ),
            decreases lines@.len() - j,
        {
            let ghost before = kept@;
            let ghost m0 = missing_lines(lv.subrange(0, j as int), pv);
            assert(lv.subrange(0, j + 1).drop_last() =~= lv.subrange(0, j as int));
            assert(lv.subrange(0, j + 1).last() == lines@[j as int]@);
            if !contains_text(&present, lines[j].as_str()) {
                let inst = FlowInstance {
                    name: owned("active"),
                    payload: FlowPayload::String(lines[j].clone()),
                    flow_type: FlowType::State,
                };
                kept.push(inst);
                proof {
                    let m1 = missing_lines(lv.subrange(0, j + 1), pv);
                    assert(m1 == m0.push(lv[j as int]));
                    assert(kept@.subrange(0, kv.len() as int) =~= before.subrange(0, kv.len() as int));
                    assert forall|t: int| 0 <= t < m1.len() implies records_line(#[trigger] kept@[kv.len() + t], m1[t]) by {
                        if t < m0.len() {
                            assert(kept@[kv.len() + t] == before[kv.len() + t]);
                        }
                    }
                }
            }
            j = j + 1;
        }
        assert(lv.subrange(0, lines@.len() as int) =~= lv);
        let ghost before_states = self.state_map();
        let ghost fin = kept@;
        proof {
            let m = missing_lines(lv, pv);
            assert forall|t: int| kv.len() <= t < fin.len() implies records_line(#[trigger] fin[t], m[t - kv.len()]) by {
                let q = t - kv.len();
                assert(records_line(fin[kv.len() + q], m[q]));
            }
        }
        self.insert_state(owned("active"), kept);
        proof {
            assert(self.state_map().remove("active"@) =~= old(self).state_map().remove("active"@));
        }
    }
}

/// The lines the branches of the `active` state record, in order.
pub open spec fn active_lines(bs: Seq<FlowInstance>) -> Seq<Seq<char>>
    decreases bs.len(),
{
    if bs.len() == 0 {
        Seq::empty()
    } else {
        let r = active_lines(bs.drop_last());
        match active_line(bs.last().payload) {
            Some(l) => r.push(l),
            None => r,
        }
    }
}

/// The enabled units after reading `lines` in order into `m`.
pub open spec fn parse_lines(m: Map<Seq<char>, Set<Seq<char>>>, lines: Seq<Seq<char>>) -> Map<Seq<char>, Set<Seq<char>>>
    decreases lines.len(),
{
    if lines.len() == 0 {
        m
    } else {
        let m1 = parse_lines(m, lines.drop_last());
        match enabled_line_spec(lines.last()) {
            Some((u, f)) => m1.insert(u, f),
            None => m1,
        }
    }
}

impl Store {
    /// Reads the enabled lines in order (see `parse_enabled_line`).
    pub fn parse_enabled_lines(&mut self, lines: &Vec<String>)
        requires
            old(self).wf(),
        ensures
            final(self).wf(),
            final(self).units == old(self).units,
            final(self).states == old(self).states,
            final(self).enabled_sets() == parse_lines(old(self).enabled_sets(), lines@.map_values(|x: String| x@)),
    {
        let ghost lv = lines@.map_values(|x: String| x@);
        let ghost m0 = self.enabled_sets();
        let mut i: usize = 0;
        while i < lines.len()
            invariant
                i <= lines@.len(),
                lv == lines@.map_values(|x: String| x@),
                self.wf(),
                self.units == old(self).units,
                self.states == old(self).states,
                m0 == old(self).enabled_sets(),
                self.enabled_sets() == parse_lines(m0, lv.subrange(0, i as int)),
            decreases lines@.len() - i,
        {
            assert(lv.subrange(0, i + 1).drop_last() =~= lv.subrange(0, i as int));
            assert(lv.subrange(0, i + 1).last() == lines@[i as int]@);
            self.parse_enabled_line(lines[i].as_str());
            i = i + 1;
        }
        assert(lv.subrange(0, lines@.len() as int) =~= lv);
    }

    /// Rebuilds the enabled units from the branches of the `active` state.
    /// Gives `true` when none results, which asks for the fallback list.
    pub fn load_enabled(&mut self) -> (needs_fallback: bool)
        requires
            old(self).wf(),
        ensures
            final(self).wf(),
            final(self).units == old(self).units,
            final(self).states == old(self).states,
            final(self).enabled_sets() == parse_lines(
                Map::empty(),
                active_lines(
                    if old(self).state_map().contains_key("active"@) {
                        old(self).state_map()["active"@]
                    } else {
                        Seq::empty()
                    },
                ),
            ),
            needs_fallback == (final(self).enabled_sets() == Map::<Seq<char>, Set<Seq<char>>>::empty()),
    {
        self.enabled = Vec::new();
        assert(self.enabled_sets() =~= Map::<Seq<char>, Set<Seq<char>>>::empty());
        let mut lines: Vec<String> = Vec::new();
        let ghost a = if self.state_map().contains_key("active"@) {
            self.state_map()["active"@]
        } else {
            Seq::empty()
        };
        match self.state_branches("active") {
            Some(bs) => {
                let mut i: usize = 0;
                while i < bs.len()
                    invariant
                        i <= bs@.len(),
                        bs@ == a,
                        lines@.map_values(|x: String| x@) == active_lines(a.subrange(0, i as int)),
                    decreases bs@.len() - i,
                {
                    assert(a.subrange(0, i + 1).drop_last() =~= a.subrange(0, i as int));
                    let ghost before = lines@;
                    match active_line_of(&bs[i].payload) {
                        Some(l) => {
                            lines.push(l);
                            assert(lines@.map_values(|x: String| x@) =~= before.map_values(|x: String| x@).push(l@));
                        },
                        None => {},
                    }
                    i = i + 1;
                }
                assert(a.subrange(0, bs@.len() as int) =~= a);
            },
            None => {
                assert(lines@.map_values(|x: String| x@) =~= active_lines(a));
            },
        }
        self.parse_enabled_lines(&lines);
        let r = self.enabled.len() == 0;
        proof {
            if !r {
                lemma_table_at(self.enabled@, 0);
                assert(self.enabled_sets().contains_key(self.enabled@[0].key@));
            } else {
                assert(self.enabled_sets() =~= Map::<Seq<char>, Set<Seq<char>>>::empty());
            }
        }
        r
    }

    /// Reads the lines of the fallback list into the enabled units and
    /// records them in the `active` state.
    pub fn load_enabled_fallback(&mut self, active_units: &Vec<String>)
        requires
            old(self).wf(),
        ensures
            final(self).wf(),
            final(self).units == old(self).units,
            final(self).enabled_sets() == parse_lines(old(self).enabled_sets(), active_units@.map_values(|x: String| x@)),
            final(self).state_map().contains_key("active"@),
    {
        self.parse_enabled_lines(active_units);
        self.save_enabled();
    }
}

/// A unit name and components that a line records so that reading the line
/// gives them back: a name that is not empty and holds no `@`, and components
/// that are trimmed, not empty and hold no `,`.
pub open spec fn recordable(name: Seq<char>, filter: Seq<Seq<char>>) -> bool {
    &&& name.len() > 0
    &&& !name.contains('@')
    &&& forall|i: int|
        0 <= i < filter.len() ==> trim_spec(#[trigger] filter[i]) == filter[i] && filter[i].len() > 0 && !filter[i].contains(',')
}

/// Reading the line of a recordable unit gives the unit and its components back.
pub proof fn lemma_line_roundtrip(name: Seq<char>, filter: Seq<Seq<char>>)
    requires
        recordable(name, filter),
    ensures
        enabled_line_spec(line_text(name, filter)) == Some((name, filter.to_set())),
{
    if filter.len() == 0 {
        assert(!has_char(name, '@')) by {
            if has_char(name, '@') {
                let k = choose|k: int| 0 <= k < name.len() && name[k] == '@';
                assert(name.contains('@'));
            }
        }
        assert(filter.to_set() =~= Set::<Seq<char>>::empty());
    } else {
        reveal_strlit("@{");
        reveal_strlit(",");
        reveal_strlit("}");
        let j = join_spec(filter, ","@);
        let line = name + "@{"@ + j + "}"@;
        let n = name.len() as int;
        assert(line[n] == '@');
        assert forall|k: int| 0 <= k < n implies line[k] != '@' by {
            assert(line[k] == name[k]);
            if name[k] == '@' {
                assert(name.contains('@'));
            }
        }
        lemma_first_index(line, '@', n);
        assert(line.subrange(0, n) =~= name);
        let rest = line.subrange(n + 1, line.len() as int);
        assert(rest =~= seq!['{'] + j + seq!['}']);
        assert(rest.subrange(1, rest.len() - 1) =~= j);
        assert(","@ =~= seq![',']);
        lemma_split_join(filter, ',');
        lemma_nonempty_trimmed_id(filter);
    }
}

/// The set of texts of a list is the set of its views.
pub proof fn lemma_strings_set(v: Vec<String>)
    ensures
        strings_set(v) == v@.map_values(|x: String| x@).to_set(),
{
    let vv = v@.map_values(|x: String| x@);
    assert forall|x: Seq<char>| strings_set(v).contains(x) <==> vv.to_set().contains(x) by {
        if strings_set(v).contains(x) {
            let i = choose|i: int| 0 <= i < v@.len() && (#[trigger] v@[i])@ == x;
            assert(vv[i] == x);
        }
        if vv.contains(x) {
            let i = choose|i: int| 0 <= i < vv.len() && vv[i] == x;
            assert(v@[i]@ == x);
        }
    }
    assert(strings_set(v) =~= vv.to_set());
}

/// The unit a line names, if it names one.
pub open spec fn line_unit(l: Seq<char>) -> Option<Seq<char>> {
    match enabled_line_spec(l) {
        Some((u, f)) => Some(u),
        None => None,
    }
}

/// The line names a unit of `target` with the components `target` gives it.
pub open spec fn records_unit_of(l: Seq<char>, target: Map<Seq<char>, Set<Seq<char>>>) -> bool {
    match enabled_line_spec(l) {
        Some((u, f)) => target.contains_key(u) && target[u] == f,
        None => false,
    }
}

/// Reading lines that each record a unit of `target` as `target` has it
/// gives the units of the lines, each as `target` has it.
pub proof fn lemma_parse_recorded(lines: Seq<Seq<char>>, target: Map<Seq<char>, Set<Seq<char>>>)
    requires
        forall|i: int| 0 <= i < lines.len() ==> records_unit_of(#[trigger] lines[i], target),
    ensures
        forall|k: Seq<char>|
            #[trigger] parse_lines(Map::empty(), lines).contains_key(k) <==> exists|i: int|
                0 <= i < lines.len() && line_unit(#[trigger] lines[i]) == Some(k),
        forall|k: Seq<char>| #[trigger] parse_lines(Map::empty(), lines).contains_key(k) ==> parse_lines(Map::empty(), lines)[k] == target[k],
    decreases lines.len(),
{
    if lines.len() > 0 {
        let d = lines.drop_last();
        assert forall|i: int| 0 <= i < d.len() implies records_unit_of(#[trigger] d[i], target) by {
            assert(d[i] == lines[i]);
        }
        lemma_parse_recorded(d, target);
        let last = lines.len() - 1;
        assert(records_unit_of(lines[last], target));
        assert(lines[last] == lines.last());
        let (u, f) = enabled_line_spec(lines.last())->0;
        assert(parse_lines(Map::empty(), lines) == parse_lines(Map::empty(), d).insert(u, f));
        assert(line_unit(lines[last]) == Some(u));
        assert(target[u] == f);
        assert forall|k: Seq<char>| #[trigger] parse_lines(Map::empty(), lines).contains_key(k) <==> exists|i: int|
            0 <= i < lines.len() && line_unit(#[trigger] lines[i]) == Some(k) by {
            if parse_lines(Map::empty(), lines).contains_key(k) {
                if parse_lines(Map::empty(), d).contains_key(k) {
                    let i = choose|i: int| 0 <= i < d.len() && line_unit(#[trigger] d[i]) == Some(k);
                    assert(d[i] == lines[i]);
                } else {
                    assert(line_unit(lines[last]) == Some(k));
                }
            }
            if exists|i: int| 0 <= i < lines.len() && line_unit(#[trigger] lines[i]) == Some(k) {
                let i = choose|i: int| 0 <= i < lines.len() && line_unit(#[trigger] lines[i]) == Some(k);
                if i < last {
                    assert(d[i] == lines[i]);
                    assert(line_unit(d[i]) == Some(k));
                }
            }
        }
    }
}

/// The lines of two lists of branches, one after the other.
pub proof fn lemma_active_lines_append(x: Seq<FlowInstance>, y: Seq<FlowInstance>)
    ensures
        active_lines(x + y) == active_lines(x) + active_lines(y),
    decreases y.len(),
{
    if y.len() == 0 {
        assert(x + y =~= x);
        assert(active_lines(x) + active_lines(y) =~= active_lines(x));
    } else {
        lemma_active_lines_append(x, y.drop_last());
        assert((x + y).drop_last() =~= x + y.drop_last());
        assert((x + y).last() == y.last());
        let r = active_lines(x) + active_lines(y.drop_last());
        match active_line(y.last().payload) {
            Some(l) => {
                assert(r.push(l) =~= active_lines(x) + active_lines(y.drop_last()).push(l));
            },
            None => {},
        }
    }
}

/// The lines of the kept branches are the present lines.
pub proof fn lemma_kept_lines(a: Seq<FlowInstance>, lines: Seq<Seq<char>>)
    ensures
        active_lines(kept_active(a, lines)) == present_lines(a, lines),
        forall|i: int| 0 <= i < present_lines(a, lines).len() ==> lines.contains(#[trigger] present_lines(a, lines)[i]),
    decreases a.len(),
{
    if a.len() > 0 {
        lemma_kept_lines(a.drop_last(), lines);
        let r = kept_active(a.drop_last(), lines);
        assert(r.push(a.last()).drop_last() =~= r);
    }
}

/// The lines of branches that each record a line, in order, are those lines.
pub proof fn lemma_recorded_lines(bs: Seq<FlowInstance>, lines: Seq<Seq<char>>)
    requires
        bs.len() == lines.len(),
        forall|i: int| 0 <= i < bs.len() ==> records_line(#[trigger] bs[i], lines[i]),
    ensures
        active_lines(bs) == lines,
    decreases bs.len(),
{
    if bs.len() > 0 {
        let d = bs.drop_last();
        assert forall|i: int| 0 <= i < d.len() implies records_line(#[trigger] d[i], lines.drop_last()[i]) by {
            assert(d[i] == bs[i]);
        }
        lemma_recorded_lines(d, lines.drop_last());
        assert(records_line(bs[bs.len() - 1], lines[lines.len() - 1]));
        assert(lines.drop_last().push(lines.last()) =~= lines);
    }
}

/// Each line is present or missing, and each missing line is one of the lines.
pub proof fn lemma_missing_lines(lines: Seq<Seq<char>>, present: Seq<Seq<char>>)
    ensures
        forall|i: int| 0 <= i < lines.len() ==> present.contains(#[trigger] lines[i]) || missing_lines(lines, present).contains(lines[i]),
        forall|i: int| 0 <= i < missing_lines(lines, present).len() ==> lines.contains(#[trigger] missing_lines(lines, present)[i]),
    decreases lines.len(),
{
    if lines.len() > 0 {
        let d = lines.drop_last();
        lemma_missing_lines(d, present);
        let r = missing_lines(d, present);
        assert forall|i: int| 0 <= i < lines.len() implies present.contains(#[trigger] lines[i]) || missing_lines(lines, present).contains(lines[i]) by {
            if i < d.len() {
                assert(d[i] == lines[i]);
                if r.contains(lines[i]) && !present.contains(lines.last()) {
                    let t = choose|t: int| 0 <= t < r.len() && r[t] == lines[i];
                    assert(r.push(lines.last())[t] == lines[i]);
                }
            } else {
                if !present.contains(lines.last()) {
                    assert(r.push(lines.last())[r.len() as int] == lines[i]);
                }
            }
        }
        assert forall|i: int| 0 <= i < missing_lines(lines, present).len() implies lines.contains(#[trigger] missing_lines(lines, present)[i]) by {
            if i < r.len() {
                assert(missing_lines(lines, present)[i] == r[i]);
                assert(d.contains(r[i]));
                let t = choose|t: int| 0 <= t < d.len() && d[t] == r[i];
                assert(lines[t] == r[i]);
            } else {
                assert(lines[lines.len() - 1] == lines.last());
            }
        }
    }
}

/// Saving the enabled units into the `active` state and reading them back
/// gives the same enabled units, where every unit is recordable (see
/// `recordable`). `saved` is the `active` state as `save_enabled` leaves it.
pub proof fn lemma_enabled_roundtrip(s: Store, saved: Seq<FlowInstance>)
    requires
        s.wf(),
        forall|i: int|
            0 <= i < s.enabled@.len() ==> recordable(
                (#[trigger] s.enabled@[i]).key@,
                s.enabled@[i].value@.map_values(|x: String| x@),
            ),
        saved_active(s.enabled@, active_branches(s.state_map()), saved),
    ensures
        parse_lines(Map::empty(), active_lines(saved)) == s.enabled_sets(),
{
    let a = active_branches(s.state_map());
    let el = entry_lines(s.enabled@);
    let lines = dedup_spec(el);
    let kept = kept_active(a, lines);
    let present = present_lines(a, lines);
    let added = missing_lines(lines, present);
    let rest = saved.subrange(kept.len() as int, saved.len() as int);
    assert(saved =~= kept + rest);
    assert forall|i: int| 0 <= i < rest.len() implies records_line(#[trigger] rest[i], added[i]) by {
        assert(rest[i] == saved[kept.len() + i]);
        assert(records_line(saved[kept.len() + i], added[kept.len() + i - kept.len()]));
    }
    lemma_recorded_lines(rest, added);
    lemma_active_lines_append(kept, rest);
    lemma_kept_lines(a, lines);
    lemma_missing_lines(lines, present);
    lemma_dedup(el);
    let all = active_lines(saved);
    assert(all == present + added);
    // every line of the enabled table records its unit as the table has it
    assert forall|i: int| 0 <= i < el.len() implies records_unit_of(#[trigger] el[i], s.enabled_sets()) && line_unit(el[i])
        == Some(s.enabled@[i].key@) by {
        let e = s.enabled@[i];
        lemma_line_roundtrip(e.key@, e.value@.map_values(|x: String| x@));
        lemma_strings_set(e.value);
        lemma_table_at(s.enabled@, i);
    }
    // so does every line that is read back
    assert forall|i: int| 0 <= i < all.len() implies records_unit_of(#[trigger] all[i], s.enabled_sets()) by {
        let x = all[i];
        if i < present.len() {
            assert(x == present[i]);
            assert(lines.contains(x));
        } else {
            assert(x == added[i - present.len()]);
            assert(lines.contains(x));
        }
        assert(el.contains(x));
        let t = choose|t: int| 0 <= t < el.len() && el[t] == x;
        assert(records_unit_of(el[t], s.enabled_sets()));
    }
    lemma_parse_recorded(all, s.enabled_sets());
    let p = parse_lines(Map::empty(), all);
    assert forall|k: Seq<char>| p.contains_key(k) <==> s.enabled_sets().contains_key(k) by {
        if p.contains_key(k) {
            let i = choose|i: int| 0 <= i < all.len() && line_unit(#[trigger] all[i]) == Some(k);
            assert(records_unit_of(all[i], s.enabled_sets()));
        }
        if s.enabled_sets().contains_key(k) {
            let i = choose|i: int| crate::keyed::has_key_at(s.enabled@, k, i);
            assert(line_unit(el[i]) == Some(k));
            assert(el.contains(el[i]));
            assert(lines.contains(el[i]));
            let t = choose|t: int| 0 <= t < lines.len() && lines[t] == el[i];
            assert(present.contains(lines[t]) || added.contains(lines[t]));
            if present.contains(lines[t]) {
                let q = choose|q: int| 0 <= q < present.len() && present[q] == lines[t];
                assert(all[q] == el[i]);
                assert(line_unit(all[q]) == Some(k));
            } else {
                let q = choose|q: int| 0 <= q < added.len() && added[q] == lines[t];
                assert(all[present.len() + q] == el[i]);
                assert(line_unit(all[present.len() + q]) == Some(k));
            }
        }
    }
    assert(p =~= s.enabled_sets());
}

/// The positions, in order, at which `names` holds `comp`.
pub open spec fn positions_of(names: Seq<Seq<char>>, comp: Seq<char>) -> Seq<int>
    decreases names.len(),
{
    if names.len() == 0 {
        Seq::empty()
    } else {
        let r = positions_of(names.drop_last(), comp);
        if names.last() == comp {
            r.push(names.len() - 1)
        } else {
            r
        }
    }
}

/// The services and mounts of a unit that a request acts on, by position.
pub struct ComponentPlan {
    pub services: Vec<usize>,
    pub mounts: Vec<usize>,
}

pub open spec fn plan_model(v: Vec<usize>) -> Seq<int> {
    v@.map_values(|x: usize| x as int)
}

/// The states after the enabled units `enabled` are saved into the states `before`.
pub open spec fn saved_states(enabled: Seq<Keyed<Vec<String>>>, before: Map<Seq<char>, Seq<FlowInstance>>, after: Map<Seq<char>, Seq<FlowInstance>>) -> bool {
    &&& after.contains_key("active"@)
    &&& after.remove("active"@) == before.remove("active"@)
    &&& saved_active(enabled, active_branches(before), after["active"@])
}

fn all_positions(n: usize) -> (r: Vec<usize>)
    ensures
        plan_model(r) == Seq::new(n as nat, |i: int| i),
{
    let mut out: Vec<usize> = Vec::new();
    let mut i: usize = 0;
    while i < n
        invariant
            i <= n,
            out@.len() == i,
            forall|j: int| 0 <= j < i ==> out@[j] == j,
        decreases n - i,
    {
        out.push(i);
        i = i + 1;
    }
    assert(plan_model(out) =~= Seq::new(n as nat, |j: int| j));
    out
}

fn matching_positions(names: &Vec<String>, comp: &str) -> (r: Vec<usize>)
    ensures
        plan_model(r) == positions_of(names@.map_values(|x: String| x@), comp@),
{
    let ghost nv = names@.map_values(|x: String| x@);
    let mut out: Vec<usize> = Vec::new();
    let mut i: usize = 0;
    while i < names.len()
        invariant
            i <= names@.len(),
            nv == names@.map_values(|x: String| x@),
            plan_model(out) == positions_of(nv.subrange(0, i as int), comp@),
        decreases names@.len() - i,
    {
        assert(nv.subrange(0, i + 1).drop_last() =~= nv.subrange(0, i as int));
        let ghost before = out@;
        if str_eq(names[i].as_str(), comp) {
            out.push(i);
            assert(plan_model(out) =~= before.map_values(|x: usize| x as int).push(i as int));
        }
        i = i + 1;
    }
    assert(nv.subrange(0, names@.len() as int) =~= nv);
    out
}

fn service_name_list(u: &Unit) -> (r: Vec<String>)
    ensures
        r@.map_values(|x: String| x@) == crate::units::service_names(*u),
{
    let mut out: Vec<String> = Vec::new();
    match &u.service {
        Some(v) => {
            let mut i: usize = 0;
            while i < v.len()
                invariant
                    i <= v@.len(),
                    out@.len() == i,
                    forall|j: int| 0 <= j < i ==> (#[trigger] out@[j])@ == v@[j].name@,
                decreases v@.len() - i,
            {
                out.push(v[i].name.clone());
                i = i + 1;
            }
            assert(out@.map_values(|x: String| x@) =~= v@.map_values(|s: Service| s.name@));
        },
        None => {
            assert(out@.map_values(|x: String| x@) =~= Seq::<Seq<char>>::empty());
        },
    }
    out
}

fn mount_name_list(u: &Unit) -> (r: Vec<String>)
    ensures
        r@.map_values(|x: String| x@) == crate::units::mount_names(*u),
{
    let mut out: Vec<String> = Vec::new();
    match &u.mount {
        Some(v) => {
            let mut i: usize = 0;
            while i < v.len()
                invariant
                    i <= v@.len(),
                    out@.len() == i,
                    forall|j: int| 0 <= j < i ==> (#[trigger] out@[j])@ == v@[j].target@,
                decreases v@.len() - i,
            {
                out.push(v[i].target.clone());
                i = i + 1;
            }
            assert(out@.map_values(|x: String| x@) =~= v@.map_values(|m: Mount| m.target@));
        },
        None => {
            assert(out@.map_values(|x: String| x@) =~= Seq::<Seq<char>>::empty());
        },
    }
    out
}

/// Adds `s` to a list without repeats.
fn insert_text(v: &mut Vec<String>, s: &str)
    requires
        no_dups(*old(v)),
    ensures
        no_dups(*final(v)),
        strings_set(*final(v)) == strings_set(*old(v)).insert(s@),
{
    if !contains_text(v, s) {
        let ghost before = *v;
        v.push(owned(s));
        proof {
            assert forall|i: int, j: int| 0 <= i < v@.len() && 0 <= j < v@.len() && i != j implies (#[trigger] v@[i])@
                != (#[trigger] v@[j])@ by {
                if i < before@.len() && j == before@.len() {
                    assert(before@.map_values(|x: String| x@)[i] == v@[i]@);
                } else if j < before@.len() && i == before@.len() {
                    assert(before@.map_values(|x: String| x@)[j] == v@[j]@);
                }
            }
            assert(strings_set(*v) =~= strings_set(before).insert(s@)) by {
                assert forall|x: Seq<char>| strings_set(*v).contains(x) implies strings_set(before).insert(s@).contains(x) by {
                    let i = choose|i: int| 0 <= i < v@.len() && (#[trigger] v@[i])@ == x;
                    if i < before@.len() {
                        assert(before@[i] == v@[i]);
                    }
                }
                assert forall|x: Seq<char>| strings_set(before).insert(s@).contains(x) implies strings_set(*v).contains(x) by {
                    if x == s@ {
                        assert(v@[before@.len() as int]@ == x);
                    } else {
                        let i = choose|i: int| 0 <= i < before@.len() && (#[trigger] before@[i])@ == x;
                        assert(v@[i] == before@[i]);
                    }
                }
            }
        }
    } else {
        proof {
            let vv = v@.map_values(|x: String| x@);
            let i = choose|i: int| 0 <= i < vv.len() && vv[i] == s@;
            assert(v@[i]@ == s@);
            assert(strings_set(*v) =~= strings_set(*v).insert(s@));
        }
    }
}

/// Removes `s` from a list without repeats.
fn remove_text(v: &mut Vec<String>, s: &str)
    requires
        no_dups(*old(v)),
    ensures
        no_dups(*final(v)),
        strings_set(*final(v)) == strings_set(*old(v)).remove(s@),
{
    let ghost before = *v;
    let mut out: Vec<String> = Vec::new();
    let mut i: usize = 0;
    while i < v.len()
        invariant
            i <= v@.len(),
            *v == before,
            no_dups(before),
            no_dups(out),
            forall|x: Seq<char>| strings_set(out).contains(x) <==> (x != s@ && exists|j: int| 0 <= j < i && (#[trigger] before@[j])@ == x),
        decreases v@.len() - i,
    {
        if !str_eq(v[i].as_str(), s) {
            let ghost o = out;
            out.push(v[i].clone());
            proof {
                assert forall|a: int, b: int| 0 <= a < out@.len() && 0 <= b < out@.len() && a != b implies (#[trigger] out@[a])@
                    != (#[trigger] out@[b])@ by {
                    if a == o@.len() {
                        if (out@[b])@ == (out@[a])@ {
                            assert(o@[b] == out@[b]);
                            assert(strings_set(o).contains(out@[b]@));
                            let j = choose|j: int| 0 <= j < i && (#[trigger] before@[j])@ == out@[b]@;
                        }
                    } else if b == o@.len() {
                        if (out@[b])@ == (out@[a])@ {
                            assert(o@[a] == out@[a]);
                            assert(strings_set(o).contains(out@[a]@));
                            let j = choose|j: int| 0 <= j < i && (#[trigger] before@[j])@ == out@[a]@;
                        }
                    } else {
                        assert(o@[a] == out@[a]);
                        assert(o@[b] == out@[b]);
                    }
                }
                assert forall|x: Seq<char>| strings_set(out).contains(x) <==> (x != s@ && exists|j: int| 0 <= j < i + 1 && (#[trigger] before@[j])@ == x) by {
                    if strings_set(out).contains(x) {
                        let t = choose|t: int| 0 <= t < out@.len() && (#[trigger] out@[t])@ == x;
                        if t < o@.len() {
                            assert(o@[t] == out@[t]);
                            assert(strings_set(o).contains(x));
                        } else {
                            assert(before@[i as int]@ == x);
                        }
                    }
                    if x != s@ && exists|j: int| 0 <= j < i + 1 && (#[trigger] before@[j])@ == x {
                        let j = choose|j: int| 0 <= j < i + 1 && (#[trigger] before@[j])@ == x;
                        if j < i {
                            assert(strings_set(o).contains(x));
                            let t = choose|t: int| 0 <= t < o@.len() && (#[trigger] o@[t])@ == x;
                            assert(out@[t] == o@[t]);
                        } else {
                            assert(out@[o@.len() as int]@ == x);
                        }
                    }
                }
            }
        }
        i = i + 1;
    }
    *v = out;
    proof {
        assert(strings_set(*v) =~= strings_set(before).remove(s@));
    }
}

/// The plan for a whole unit: every service and every mount of the unit
/// `name`, by position; nothing where there is no such unit.
pub open spec fn whole_plan(units: Seq<Keyed<Unit>>, name: Seq<char>, plan: ComponentPlan) -> bool {
    if table(units).contains_key(name) {
        let u = table(units)[name];
        &&& plan_model(plan.services) == Seq::new(crate::units::service_names(u).len(), |i: int| i)
        &&& plan_model(plan.mounts) == Seq::new(crate::units::mount_names(u).len(), |i: int| i)
    } else {
        plan.services@.len() == 0 && plan.mounts@.len() == 0
    }
}

/// The plan for one component: the services and mounts of the unit
/// `unit_name` that bear the name `component`, by position; nothing where
/// there is no such unit.
pub open spec fn part_plan(units: Seq<Keyed<Unit>>, unit_name: Seq<char>, component: Seq<char>, plan: ComponentPlan) -> bool {
    if table(units).contains_key(unit_name) {
        let u = table(units)[unit_name];
        &&& plan_model(plan.services) == positions_of(crate::units::service_names(u), component)
        &&& plan_model(plan.mounts) == positions_of(crate::units::mount_names(u), component)
    } else {
        plan.services@.len() == 0 && plan.mounts@.len() == 0
    }
}

impl Store {
    /// Enabling a whole unit: the unit `name` becomes enabled with no
    /// limiting components, every service of it is to start and every mount
    /// to be mounted, and with `PersistMode::Yes` the enabled units are saved.
    pub fn enable_unit(&mut self, name: &str, persist: PersistMode) -> (plan: ComponentPlan)
        requires
            old(self).wf(),
        ensures
            final(self).wf(),
            final(self).units == old(self).units,
            final(self).enabled_sets() == old(self).enabled_sets().insert(name@, Set::<Seq<char>>::empty()),
            persist == PersistMode::Yes ==> saved_states(final(self).enabled@, old(self).state_map(), final(self).state_map()),
            persist == PersistMode::No ==> final(self).states == old(self).states,
            whole_plan(old(self).units@, name@, plan),
    {
        let plan = match self.unit(name) {
            Some(u) => ComponentPlan { services: all_positions(u.service_count()), mounts: all_positions(u.mount_count()) },
            None => ComponentPlan { services: Vec::new(), mounts: Vec::new() },
        };
        let none: Vec<String> = Vec::new();
        assert(strings_set(none) =~= Set::<Seq<char>>::empty());
        self.enabled_insert(owned(name), none);
        if persist == PersistMode::Yes {
            self.save_enabled();
        }
        plan
    }

    /// Disabling a whole unit: every service of the unit `name` is to be
    /// killed and every mount unmounted; the unit leaves the enabled units,
    /// and with `PersistMode::Yes` the enabled units are saved.
    pub fn disable_unit(&mut self, name: &str, persist: PersistMode) -> (plan: ComponentPlan)
        requires
            old(self).wf(),
        ensures
            final(self).wf(),
            final(self).units == old(self).units,
            final(self).enabled_sets() == old(self).enabled_sets().remove(name@),
            persist == PersistMode::Yes ==> saved_states(final(self).enabled@, old(self).state_map(), final(self).state_map()),
            persist == PersistMode::No ==> final(self).states == old(self).states,
            whole_plan(old(self).units@, name@, plan),
    {
        let plan = match self.unit(name) {
            Some(u) => ComponentPlan { services: all_positions(u.service_count()), mounts: all_positions(u.mount_count()) },
            None => ComponentPlan { services: Vec::new(), mounts: Vec::new() },
        };
        remove_key(&mut self.enabled, name);
        proof {
            assert forall|k: Seq<char>| #[trigger] table(self.enabled@).contains_key(k) implies no_dups(table(self.enabled@)[k]) by {
                let i = choose|i: int| crate::keyed::has_key_at(old(self).enabled@, k, i);
                lemma_table_at(old(self).enabled@, i);
            }
            lemma_filters(self.enabled@);
            assert(self.enabled_sets() =~= old(self).enabled_sets().remove(name@));
        }
        if persist == PersistMode::Yes {
            let ghost e = self.enabled@;
            self.save_enabled();
            assert(saved_states(e, old(self).state_map(), self.state_map()));
        }
        plan
    }
}

/// The components the unit `k` is limited to, none where it is not enabled.
pub open spec fn filter_or_empty(m: Map<Seq<char>, Set<Seq<char>>>, k: Seq<char>) -> Set<Seq<char>> {
    if m.contains_key(k) {
        m[k]
    } else {
        Set::empty()
    }
}

impl Store {
    fn take_filter(&mut self, unit_name: &str) -> (r: Vec<String>)
        requires
            old(self).wf(),
        ensures
            final(self).wf(),
            final(self).units == old(self).units,
            final(self).states == old(self).states,
            final(self).enabled_sets() == old(self).enabled_sets().remove(unit_name@),
            no_dups(r),
            strings_set(r) == filter_or_empty(old(self).enabled_sets(), unit_name@),
    {
        let r = match remove_key(&mut self.enabled, unit_name) {
            Some(v) => v,
            None => {
                let e: Vec<String> = Vec::new();
                assert(strings_set(e) =~= Set::<Seq<char>>::empty());
                e
            },
        };
        proof {
            if old(self).enabled_sets().contains_key(unit_name@) {
                let i = choose|i: int| crate::keyed::has_key_at(old(self).enabled@, unit_name@, i);
                lemma_table_at(old(self).enabled@, i);
            }
            assert forall|k: Seq<char>| #[trigger] table(self.enabled@).contains_key(k) implies no_dups(table(self.enabled@)[k]) by {
                let i = choose|i: int| crate::keyed::has_key_at(old(self).enabled@, k, i);
                lemma_table_at(old(self).enabled@, i);
            }
            lemma_filters(self.enabled@);
            assert(self.enabled_sets() =~= old(self).enabled_sets().remove(unit_name@));
        }
        r
    }

    fn component_plan(&self, unit_name: &str, component: &str) -> (plan: ComponentPlan)
        requires
            self.wf(),
        ensures
            table(self.units@).contains_key(unit_name@) ==> {
                let u = table(self.units@)[unit_name@];
                &&& plan_model(plan.services) == positions_of(crate::units::service_names(u), component@)
                &&& plan_model(plan.mounts) == positions_of(crate::units::mount_names(u), component@)
            },
            !table(self.units@).contains_key(unit_name@) ==> plan.services@.len() == 0 && plan.mounts@.len() == 0,
    {
        match self.unit(unit_name) {
            Some(u) => {
                let snames = service_name_list(u);
                let mnames = mount_name_list(u);
                ComponentPlan { services: matching_positions(&snames, component), mounts: matching_positions(&mnames, component) }
            },
            None => ComponentPlan { services: Vec::new(), mounts: Vec::new() },
        }
    }

    /// Enabling one component: it joins the components the unit is limited
    /// to; the services and mounts of that name are to start; with
    /// `PersistMode::Yes` the enabled units are saved.
    pub fn enable_component(&mut self, unit_name: &str, component: &str, persist: PersistMode) -> (plan: ComponentPlan)
        requires
            old(self).wf(),
        ensures
            final(self).wf(),
            final(self).units == old(self).units,
            final(self).enabled_sets() == old(self).enabled_sets().insert(
                unit_name@,
                filter_or_empty(old(self).enabled_sets(), unit_name@).insert(component@),
            ),
            persist == PersistMode::Yes ==> saved_states(final(self).enabled@, old(self).state_map(), final(self).state_map()),
            persist == PersistMode::No ==> final(self).states == old(self).states,
            part_plan(old(self).units@, unit_name@, component@, plan),
    {
        let mut filter = self.take_filter(unit_name);
        insert_text(&mut filter, component);
        self.enabled_insert(owned(unit_name), filter);
        proof {
            assert(self.enabled_sets() =~= old(self).enabled_sets().insert(
                unit_name@,
                filter_or_empty(old(self).enabled_sets(), unit_name@).insert(component@),
            ));
        }
        let plan = self.component_plan(unit_name, component);
        if persist == PersistMode::Yes {
            self.save_enabled();
        }
        plan
    }

    /// Disabling one component: it leaves the components the unit is limited
    /// to (the unit stays enabled, with an empty list where it had none); the
    /// services of that name are to be killed and the mounts unmounted; with
    /// `PersistMode::Yes` the enabled units are saved.
    pub fn disable_component(&mut self, unit_name: &str, component: &str, persist: PersistMode) -> (plan: ComponentPlan)
        requires
            old(self).wf(),
        ensures
            final(self).wf(),
            final(self).units == old(self).units,
            final(self).enabled_sets() == old(self).enabled_sets().insert(
                unit_name@,
                filter_or_empty(old(self).enabled_sets(), unit_name@).remove(component@),
            ),
            persist == PersistMode::Yes ==> saved_states(final(self).enabled@, old(self).state_map(), final(self).state_map()),
            persist == PersistMode::No ==> final(self).states == old(self).states,
            part_plan(old(self).units@, unit_name@, component@, plan),
    {
        let mut filter = self.take_filter(unit_name);
        remove_text(&mut filter, component);
        self.enabled_insert(owned(unit_name), filter);
        proof {
            assert(self.enabled_sets() =~= old(self).enabled_sets().insert(
                unit_name@,
                filter_or_empty(old(self).enabled_sets(), unit_name@).remove(component@),
            ));
        }
        let plan = self.component_plan(unit_name, component);
        if persist == PersistMode::Yes {
            self.save_enabled();
        }
        plan
    }
}

} // verus!
