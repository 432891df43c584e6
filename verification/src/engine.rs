//! The flow engine on the store: validating a flow change, recording state
//! branches, and the decisions a change makes (services to stop and start,
//! transports to reach, states that follow).
use crate::flow::{FlowDefinitionBase, FlowInstance, FlowItem, FlowMatchOperation, FlowPayload, FlowType, payload_field};
use crate::keyed::{Keyed, table};
use crate::services::{Service, ServiceState, StopMode, KillRequest, begin_start, stop_service, signal_for};
use crate::store::{Store, check_flow_spec};
use crate::supervise::{Selector, selected, triggered, has_transport, has_pos, before, svc_list, comp_id, stop_result, lemma_branch_kills_signal};
use crate::text::owned;
use crate::transport::{TransportID, TransportMethod, TransportMessageAction, method_id};
use crate::triggers::{FlowChangeAction, apply_spec, opt_strings, apply_to_branches, kept_spec, removed_spec, partition_branches, condition_spec, check_condition, compatible_spec, payload_compatible};
use crate::units::Unit;
use vstd::prelude::*;
use vstd::string::StringSliceAdditionalSpecFns;

verus! {

/// Why a flow change is refused.
#[derive(Clone, Copy, PartialEq, Eq, Structural, Debug)]
pub enum FlowError {
    /// The state is unknown, or the payload is not of its type.
    StateValidation,
    /// The JSON payload lacks a branch key of the state.
    InvalidBranchKeys,
    /// The signal is unknown, or the payload is not of its type.
    SignalValidation,
}

impl FlowError {
    /// The message of the error.
    pub fn message(&self) -> (r: String)
        ensures
            r@ == match *self {
                FlowError::StateValidation => "State trigger validation failed."@,
                FlowError::InvalidBranchKeys => "Invalid JSON branch keys"@,
                FlowError::SignalValidation => "Signal trigger validation failed."@,
            },
    {
        match self {
            FlowError::StateValidation => owned("State trigger validation failed."),
            FlowError::InvalidBranchKeys => owned("Invalid JSON branch keys"),
            FlowError::SignalValidation => owned("Signal trigger validation failed."),
        }
    }
}

/// The branches of the state `name`, none where it is not set.
pub open spec fn branches_or_empty(m: Map<Seq<char>, Seq<FlowInstance>>, name: Seq<char>) -> Seq<FlowInstance> {
    if m.contains_key(name) {
        m[name]
    } else {
        Seq::empty()
    }
}

impl Store {
    /// Records a state payload in the branches of the state (see
    /// `apply_spec`); the state is set afterwards even where the payload is
    /// refused. Gives whether it was accepted.
    pub fn store_state(&mut self, instance: FlowInstance, specs: &Option<Vec<String>>) -> (ok: bool)
        requires
            old(self).wf(),
        ensures
            final(self).wf(),
            final(self).units == old(self).units,
            final(self).enabled == old(self).enabled,
            final(self).state_map().dom() == old(self).state_map().dom().insert(instance.name@),
            final(self).state_map().remove(instance.name@) == old(self).state_map().remove(instance.name@),
            apply_spec(
                branches_or_empty(old(self).state_map(), instance.name@),
                final(self).state_map()[instance.name@],
                instance,
                opt_strings(*specs),
                ok,
            ),
            !(instance.payload is Json) ==> {
                &&& ok
                &&& final(self).state_map()[instance.name@].len() == 1
                &&& crate::flow::same_payload(instance.payload, final(self).state_map()[instance.name@][0].payload)
            },
    {
        let name = instance.name.clone();
        let mut entry = match self.take_state(name.as_str()) {
            Some(v) => v,
            None => Vec::new(),
        };
        let ok = apply_to_branches(&mut entry, &instance, specs);
        let ghost e = entry@;
        self.insert_state(name, entry);
        proof {
            assert(self.state_map().dom() =~= old(self).state_map().dom().insert(instance.name@));
            assert(self.state_map().remove(instance.name@) =~= old(self).state_map().remove(instance.name@));
        }
        ok
    }

    /// The first part of removing a state: its branches leave the store and
    /// are split into those to keep (the filter does not select them) and
    /// those to revert. `None` where the state is not set.
    pub fn remove_state_begin(&mut self, name: &str, filter: &Option<FlowMatchOperation>) -> (r: Option<(Vec<FlowInstance>, Vec<FlowInstance>)>)
        requires
            old(self).wf(),
        ensures
            final(self).wf(),
            final(self).units == old(self).units,
            final(self).enabled == old(self).enabled,
            final(self).state_map() == old(self).state_map().remove(name@),
            match r {
                Some((keep, remove)) => old(self).state_map().contains_key(name@) && match filter {
                    Some(f) => keep@ == kept_spec(old(self).state_map()[name@], *f) && remove@ == removed_spec(
                        old(self).state_map()[name@],
                        *f,
                    ),
                    None => keep@.len() == 0 && remove@ == old(self).state_map()[name@],
                },
                None => !old(self).state_map().contains_key(name@),
            },
    {
        match self.take_state(name) {
            Some(branches) => Some(partition_branches(branches, filter)),
            None => None,
        }
    }

    /// The last part of removing a state: the kept branches, if any, become
    /// the state again.
    pub fn remove_state_end(&mut self, name: &str, keep: Vec<FlowInstance>)
        requires
            old(self).wf(),
        ensures
            final(self).wf(),
            final(self).units == old(self).units,
            final(self).enabled == old(self).enabled,
            keep@.len() > 0 ==> final(self).state_map() == old(self).state_map().insert(name@, keep@),
            keep@.len() == 0 ==> final(self).states == old(self).states,
    {
        if keep.len() > 0 {
            self.insert_state(owned(name), keep);
        }
    }
}

/// Whether some branch of a set state, taken as a state, meets the condition
/// and agrees with the payload (see `compatible_spec`).
pub open spec fn condition_active(states: Seq<Keyed<Vec<FlowInstance>>>, cond: FlowItem, payload: Option<FlowPayload>) -> bool {
    exists|a: int, b: int|
        0 <= a < states.len() && 0 <= b < states[a].value@.len() && condition_spec(
            cond,
            as_state(#[trigger] states[a].value@[b]),
        ) && compatible_spec(payload, states[a].value@[b].payload)
}

/// A branch with its type set to `State`.
pub open spec fn as_state(b: FlowInstance) -> FlowInstance {
    FlowInstance { flow_type: FlowType::State, ..b }
}

impl Store {
    /// Whether some branch of a set state meets the condition and agrees with
    /// the payload (see `condition_active`).
    pub fn condition_is_active(&self, cond: &FlowItem, payload: Option<&FlowPayload>) -> (r: bool)
        ensures
            r == condition_active(
                self.states@,
                *cond,
                match payload {
                    Some(p) => Some(*p),
                    None => None,
                },
            ),
    {
        let ghost pl = match payload {
            Some(p) => Some(*p),
            None => None::<FlowPayload>,
        };
        let mut a: usize = 0;
        while a < self.states.len()
            invariant
                a <= self.states@.len(),
                pl == match payload {
                    Some(p) => Some(*p),
                    None => None::<FlowPayload>,
                },
                forall|x: int, y: int|
                    0 <= x < a && 0 <= y < self.states@[x].value@.len() ==> !(condition_spec(
                        *cond,
                        as_state(#[trigger] self.states@[x].value@[y]),
                    ) && compatible_spec(pl, self.states@[x].value@[y].payload)),
            decreases self.states@.len() - a,
        {
            let branches = &self.states[a].value;
            let mut b: usize = 0;
            while b < branches.len()
                invariant
                    a < self.states@.len(),
                    *branches == self.states@[a as int].value,
                    b <= branches@.len(),
                    pl == match payload {
                        Some(p) => Some(*p),
                        None => None::<FlowPayload>,
                    },
                    forall|x: int, y: int|
                        0 <= x < a && 0 <= y < self.states@[x].value@.len() ==> !(condition_spec(
                            *cond,
                            as_state(#[trigger] self.states@[x].value@[y]),
                        ) && compatible_spec(pl, self.states@[x].value@[y].payload)),
                    forall|y: int|
                        0 <= y < b ==> !(condition_spec(*cond, as_state(#[trigger] branches@[y])) && compatible_spec(
                            pl,
                            branches@[y].payload,
                        )),
                decreases branches@.len() - b,
            {
                let br = &branches[b];
                let st = FlowInstance { name: br.name.clone(), payload: br.payload.duplicate(), flow_type: FlowType::State };
                let c = check_condition(cond, &st);
                proof {
                    crate::triggers::lemma_condition_same_payload(*cond, st, as_state(*br));
                }
                if c && payload_compatible(payload, &br.payload) {
                    assert(condition_spec(*cond, as_state(self.states@[a as int].value@[b as int])));
                    return true;
                }
                b = b + 1;
            }
            a = a + 1;
        }
        false
    }
}

/// The state definitions of a unit, none where it declares none.
pub open spec fn defs_of(u: Unit) -> Seq<crate::flow::StateDefinition> {
    match u.state {
        Some(v) => v@,
        None => Seq::empty(),
    }
}

/// Which state definitions a selection picks: those with an `after`
/// condition that a flow change meets, or those that activate when other
/// states are unset.
pub enum DefSelector<'a> {
    After { source: &'a FlowInstance },
    OnNone,
}

pub open spec fn def_selected(s: Store, u: int, k: int, sel: DefSelector) -> bool {
    &&& 0 <= u < s.units@.len()
    &&& 0 <= k < defs_of(s.units@[u].value).len()
    &&& {
        let d = defs_of(s.units@[u].value)[k].0;
        match sel {
            DefSelector::After { source } => crate::supervise::any_cond(d.after, *source),
            DefSelector::OnNone => d.activate_on_none is Some,
        }
    }
}

impl Store {
    /// The state definitions that `sel` picks, by unit and position, in table order.
    pub fn select_defs(&self, sel: &DefSelector) -> (r: Vec<(usize, usize)>)
        requires
            self.wf(),
        ensures
            forall|t: int| 0 <= t < r@.len() ==> def_selected(*self, (#[trigger] r@[t]).0 as int, r@[t].1 as int, *sel),
            forall|a: int, b: int| 0 <= a < b < r@.len() ==> before(#[trigger] r@[a], #[trigger] r@[b]),
            forall|u: int, k: int| #[trigger] def_selected(*self, u, k, *sel) ==> has_pos(r@, u, k),
    {
        let mut out: Vec<(usize, usize)> = Vec::new();
        let mut u: usize = 0;
        while u < self.units.len()
            invariant
                u <= self.units@.len(),
                forall|t: int| 0 <= t < out@.len() ==> def_selected(*self, (#[trigger] out@[t]).0 as int, out@[t].1 as int, *sel),
                forall|t: int| 0 <= t < out@.len() ==> (#[trigger] out@[t]).0 < u,
                forall|a: int, b: int| 0 <= a < b < out@.len() ==> before(#[trigger] out@[a], #[trigger] out@[b]),
                forall|v: int, k: int| #[trigger] def_selected(*self, v, k, *sel) && v < u ==> has_pos(out@, v, k),
            decreases self.units@.len() - u,
        {
            match &self.units[u].value.state {
                Some(defs) => {
                    let ghost out0 = out@;
                    let mut k: usize = 0;
                    while k < defs.len()
                        invariant
                            u < self.units@.len(),
                            self.units@[u as int].value.state == Some(*defs),
                            k <= defs@.len(),
                            out0.len() <= out@.len(),
                            out@.subrange(0, out0.len() as int) == out0,
                            forall|t: int| 0 <= t < out0.len() ==> (#[trigger] out0[t]).0 < u,
                            forall|t: int| 0 <= t < out@.len() ==> def_selected(*self, (#[trigger] out@[t]).0 as int, out@[t].1 as int, *sel),
                            forall|t: int| out0.len() <= t < out@.len() ==> (#[trigger] out@[t]).0 == u && out@[t].1 < k,
                            forall|a: int, b: int| 0 <= a < b < out@.len() ==> before(#[trigger] out@[a], #[trigger] out@[b]),
                            forall|v: int, j: int| #[trigger] def_selected(*self, v, j, *sel) && (v < u || (v == u && j < k)) ==> has_pos(out@, v, j),
                        decreases defs@.len() - k,
                    {
                        let d = &defs[k].0;
                        let hit = match sel {
                            DefSelector::After { source } => crate::supervise::any_condition(&d.after, *source),
                            DefSelector::OnNone => d.activate_on_none.is_some(),
                        };
                        if hit {
                            let ghost ob = out@;
                            out.push((u, k));
                            proof {
                                assert(out@.subrange(0, out0.len() as int) =~= ob.subrange(0, out0.len() as int));
                                assert forall|a: int, b: int| 0 <= a < b < out@.len() implies before(#[trigger] out@[a], #[trigger] out@[b]) by {
                                    if b == out@.len() - 1 && a < ob.len() {
                                        assert(out@[a] == ob[a]);
                                        if a < out0.len() {
                                            assert(out0[a] == ob[a]);
                                        }
                                    } else if b < ob.len() {
                                        assert(out@[a] == ob[a]);
                                        assert(out@[b] == ob[b]);
                                    }
                                }
                                assert forall|v: int, j: int| #[trigger] def_selected(*self, v, j, *sel) && (v < u || (v == u && j < k + 1)) implies has_pos(out@, v, j) by {
                                    if v == u && j == k {
                                        assert(out@[ob.len() as int] == (u, k));
                                    } else {
                                        let q = choose|q: int| 0 <= q < ob.len() && ob[q].0 == v && ob[q].1 == j;
                                        assert(out@[q] == ob[q]);
                                    }
                                }
                            }
                        } else {
                            assert(!def_selected(*self, u as int, k as int, *sel));
                        }
                        k = k + 1;
                    }
                    proof {
                        assert forall|v: int, j: int| #[trigger] def_selected(*self, v, j, *sel) && v < u + 1 implies has_pos(out@, v, j) by {
                            if v == u {
                                assert(j < defs@.len());
                            }
                        }
                        assert forall|t: int| 0 <= t < out@.len() implies (#[trigger] out@[t]).0 < u + 1 by {
                            if t < out0.len() {
                                assert(out@[t] == out0[t]);
                            }
                        }
                    }
                },
                None => {
                    proof {
                        assert forall|v: int, j: int| #[trigger] def_selected(*self, v, j, *sel) && v < u + 1 implies has_pos(out@, v, j) by {
                            if v == u {
                                assert(defs_of(self.units@[u as int].value).len() == 0);
                            }
                        }
                    }
                },
            }
            u = u + 1;
        }
        out
    }
}

/// Every condition is active for the payload (see `condition_active`).
pub open spec fn all_active(states: Seq<Keyed<Vec<FlowInstance>>>, conds: Seq<FlowItem>, p: FlowPayload) -> bool {
    forall|c: int| 0 <= c < conds.len() ==> condition_active(states, #[trigger] conds[c], Some(p))
}

/// The `after` conditions of a definition, none where it has none.
pub open spec fn after_conds(d: FlowDefinitionBase) -> Seq<FlowItem> {
    match d.after {
        Some(a) => a@,
        None => Seq::empty(),
    }
}

/// An applied source needs all conditions active; a reverted one, not all.
pub open spec fn decision_ok(action: FlowChangeAction, active: bool) -> bool {
    if action == FlowChangeAction::Apply {
        active
    } else {
        !active
    }
}

pub proof fn lemma_compatible_same(a: FlowPayload, b: FlowPayload, thing: FlowPayload)
    requires
        crate::flow::same_payload(a, b),
    ensures
        compatible_spec(Some(a), thing) == compatible_spec(Some(b), thing),
{
}

pub proof fn lemma_all_active_same(states: Seq<Keyed<Vec<FlowInstance>>>, conds: Seq<FlowItem>, a: FlowPayload, b: FlowPayload)
    requires
        crate::flow::same_payload(a, b),
    ensures
        all_active(states, conds, a) == all_active(states, conds, b),
{
    assert forall|cond: FlowItem| condition_active(states, cond, Some(a)) == condition_active(states, cond, Some(b)) by {
        assert forall|x: int, y: int| 0 <= x < states.len() && 0 <= y < states[x].value@.len() implies compatible_spec(
            Some(a),
            states[x].value@[y].payload,
        ) == compatible_spec(Some(b), states[x].value@[y].payload) by {
            lemma_compatible_same(a, b, states[x].value@[y].payload);
        }
    }
}

/// The full name `unit@state` of state definition `k` of the unit at `u`.
pub open spec fn def_name(units: Seq<Keyed<Unit>>, u: int, k: int) -> Seq<char> {
    units[u].key@ + "@"@ + defs_of(units[u].value)[k].0.name@
}

impl Store {
    fn def_name_at(&self, u: usize, k: usize) -> (r: String)
        requires
            u < self.units@.len(),
            k < defs_of(self.units@[u as int].value).len(),
        ensures
            r@ == def_name(self.units@, u as int, k as int),
    {
        let e = &self.units[u];
        match &e.value.state {
            Some(v) => {
                let a = crate::text::concat(e.key.as_str(), "@");
                crate::text::concat(a.as_str(), v[k].0.name.as_str())
            },
            None => {
                assert(false);
                String::new()
            },
        }
    }

    fn all_conditions_active(&self, conds: &Vec<FlowItem>, p: &FlowPayload) -> (r: bool)
        ensures
            r == all_active(self.states@, conds@, *p),
    {
        let mut c: usize = 0;
        while c < conds.len()
            invariant
                c <= conds@.len(),
                forall|j: int| 0 <= j < c ==> condition_active(self.states@, #[trigger] conds@[j], Some(*p)),
            decreases conds@.len() - c,
        {
            if !self.condition_is_active(&conds[c], Some(p)) {
                return false;
            }
            c = c + 1;
        }
        true
    }

    /// The source payload a dependent state takes: what its automatic payload
    /// command printed where it has one, the source flow's payload otherwise.
    pub fn transcend_source(def: &FlowDefinitionBase, source: &FlowInstance, output: &str) -> (r: FlowPayload)
        ensures
            match def.auto_payload {
                Some(cfg) => crate::triggers::auto_spec(def.payload, cfg.insert, output@, output.spec_bytes(), r),
                None => crate::flow::same_payload(source.payload, r),
            },
    {
        match &def.auto_payload {
            Some(_) => crate::triggers::auto_payload_for(def, output),
            None => source.payload.duplicate(),
        }
    }

    /// Whether the state definition `k` of the unit at `u` follows a change
    /// of `source`: it takes the payload that `transcendent_spec` gives for
    /// `src` (see `transcend_source`); applied, it is set where all its
    /// `after` conditions are active for that payload; reverted, it is
    /// removed where they are not all active. Gives its full name and payload,
    /// or `None` where nothing follows or it is the source itself.
    pub fn transcend_one(&self, source_name: &str, action: FlowChangeAction, u: usize, k: usize, src: &FlowPayload) -> (r: Option<(String, FlowPayload)>)
        requires
            u < self.units@.len(),
            k < defs_of(self.units@[u as int].value).len(),
        ensures
            ({
                let d = defs_of(self.units@[u as int].value)[k as int].0;
                let conds = after_conds(d);
                match r {
                    Some((n, p)) => {
                        &&& crate::triggers::transcendent_spec(d.payload, opt_strings(d.branch), *src, Some(p))
                        &&& n@ == def_name(self.units@, u as int, k as int)
                        &&& n@ != source_name@
                        &&& decision_ok(action, all_active(self.states@, conds, p))
                    },
                    None => forall|p: FlowPayload|
                        #[trigger] crate::triggers::transcendent_spec(d.payload, opt_strings(d.branch), *src, Some(p)) ==> (
                        def_name(self.units@, u as int, k as int) == source_name@ || !decision_ok(
                            action,
                            all_active(self.states@, conds, p),
                        )),
                }
            }),
    {
        let d = match &self.units[u].value.state {
            Some(v) => &v[k].0,
            None => {
                assert(false);
                return None;
            },
        };
        let ghost conds = after_conds(*d);
        let payload = match crate::triggers::transcendent_payload_for(d, src) {
            Some(p) => p,
            None => {
                return None;
            },
        };
        let active = match &d.after {
            Some(a) => self.all_conditions_active(a, &payload),
            None => {
                assert(all_active(self.states@, conds, payload));
                true
            },
        };
        proof {
            assert forall|p: FlowPayload| #[trigger] crate::triggers::transcendent_spec(d.payload, opt_strings(d.branch), *src, Some(p))
                implies crate::flow::same_payload(payload, p) by {
            }
            assert forall|p: FlowPayload| #[trigger] crate::triggers::transcendent_spec(d.payload, opt_strings(d.branch), *src, Some(p))
                implies all_active(self.states@, conds, p) == active by {
                lemma_all_active_same(self.states@, conds, payload, p);
            }
        }
        let ok = if action == FlowChangeAction::Apply {
            active
        } else {
            !active
        };
        if !ok {
            return None;
        }
        let name = self.def_name_at(u, k);
        if crate::text::str_eq(name.as_str(), source_name) {
            return None;
        }
        Some((name, payload))
    }
}

/// What activation on none asks of a state.
pub enum ActivationStep {
    /// Set the state with this payload.
    Activate(String, FlowPayload),
    /// Remove the state.
    Remove(String),
    /// Leave it.
    Nothing,
}

/// Whether every state of the list is unset or has no branch.
pub open spec fn all_unset(m: Map<Seq<char>, Seq<FlowInstance>>, deps: Seq<Seq<char>>) -> bool {
    forall|j: int| 0 <= j < deps.len() ==> !m.contains_key(#[trigger] deps[j]) || m[deps[j]].len() == 0
}

impl Store {
    fn is_unset(&self, name: &str) -> (r: bool)
        requires
            self.wf(),
        ensures
            r == (!self.state_map().contains_key(name@) || self.state_map()[name@].len() == 0),
    {
        match self.state_branches(name) {
            Some(v) => v.len() == 0,
            None => true,
        }
    }

    /// Activation on none for the state definition `k` of the unit at `u`,
    /// which lists states: where none of them is set (or all are empty) and
    /// the state is not set, it is set with its automatic payload (see
    /// `auto_payload_for`, with `output`); where one of them is set and the
    /// state is, it is removed.
    pub fn activation_one(&self, u: usize, k: usize, output: &str) -> (r: ActivationStep)
        requires
            self.wf(),
            u < self.units@.len(),
            k < defs_of(self.units@[u as int].value).len(),
            defs_of(self.units@[u as int].value)[k as int].0.activate_on_none is Some,
        ensures
            ({
                let d = defs_of(self.units@[u as int].value)[k as int].0;
                let deps = d.activate_on_none->0@.map_values(|x: String| x@);
                let name = def_name(self.units@, u as int, k as int);
                let should = all_unset(self.state_map(), deps);
                let active = self.state_map().contains_key(name) && self.state_map()[name].len() > 0;
                match r {
                    ActivationStep::Activate(n, p) => {
                        &&& should && !active
                        &&& n@ == name
                        &&& match d.auto_payload {
                            None => crate::triggers::default_payload_spec(d.payload, p),
                            Some(cfg) => crate::triggers::auto_spec(d.payload, cfg.insert, output@, output.spec_bytes(), p),
                        }
                    },
                    ActivationStep::Remove(n) => !should && active && n@ == name,
                    ActivationStep::Nothing => should == active,
                }
            }),
    {
        let d = match &self.units[u].value.state {
            Some(v) => &v[k].0,
            None => {
                assert(false);
                return ActivationStep::Nothing;
            },
        };
        let deps = match &d.activate_on_none {
            Some(v) => v,
            None => {
                assert(false);
                return ActivationStep::Nothing;
            },
        };
        let ghost dv = deps@.map_values(|x: String| x@);
        let mut should = true;
        let mut j: usize = 0;
        while j < deps.len()
            invariant
                self.wf(),
                j <= deps@.len(),
                dv == deps@.map_values(|x: String| x@),
                should == forall|t: int| 0 <= t < j ==> !self.state_map().contains_key(#[trigger] dv[t]) || self.state_map()[dv[t]].len() == 0,
            decreases deps@.len() - j,
        {
            let unset = self.is_unset(deps[j].as_str());
            assert(dv[j as int] == deps@[j as int]@);
            should = should && unset;
            j = j + 1;
        }
        let name = self.def_name_at(u, k);
        let payload = crate::triggers::auto_payload_for(d, output);
        let active = !self.is_unset(name.as_str());
        if should && !active {
            ActivationStep::Activate(name, payload)
        } else if !should && active {
            ActivationStep::Remove(name)
        } else {
            ActivationStep::Nothing
        }
    }
}

/// The variable an option of the `env` transport sets: `KEY=value` sets
/// `KEY` to `value`; `KEY=state:NAME` sets it to the text of the first
/// branch of the state `NAME`, where it has one; other options set nothing.
pub open spec fn env_assign_spec(option: Seq<char>, m: Map<Seq<char>, Seq<FlowInstance>>) -> Option<(Seq<char>, Seq<char>)> {
    match crate::text::split_once_spec(option, '=') {
        None => None,
        Some((k, v)) => if v.len() >= 6 && v.subrange(0, 6) == crate::transport::state_prefix() {
            let name = v.subrange(6, v.len() as int);
            if m.contains_key(name) && m[name].len() > 0 {
                Some((k, crate::flow::payload_text(m[name][0].payload)))
            } else {
                None
            }
        } else {
            Some((k, v))
        },
    }
}

/// The variables the options set, in order.
pub open spec fn env_assigns(options: Seq<Seq<char>>, m: Map<Seq<char>, Seq<FlowInstance>>) -> Seq<(Seq<char>, Seq<char>)>
    decreases options.len(),
{
    if options.len() == 0 {
        Seq::empty()
    } else {
        let r = env_assigns(options.drop_last(), m);
        match env_assign_spec(options.last(), m) {
            Some(a) => r.push(a),
            None => r,
        }
    }
}

impl Store {
    /// The environment variables the `env` transport sets for a service, in
    /// order (see `env_assign_spec`).
    pub fn env_assignments(&self, options: &Vec<String>) -> (r: Vec<(String, String)>)
        requires
            self.wf(),
        ensures
            r@.map_values(|a: (String, String)| (a.0@, a.1@)) == env_assigns(options@.map_values(|x: String| x@), self.state_map()),
    {
        let ghost ov = options@.map_values(|x: String| x@);
        let mut out: Vec<(String, String)> = Vec::new();
        let mut i: usize = 0;
        while i < options.len()
            invariant
                self.wf(),
                i <= options@.len(),
                ov == options@.map_values(|x: String| x@),
                out@.map_values(|a: (String, String)| (a.0@, a.1@)) == env_assigns(ov.subrange(0, i as int), self.state_map()),
            decreases options@.len() - i,
        {
            assert(ov.subrange(0, i + 1).drop_last() =~= ov.subrange(0, i as int));
            assert(ov[i as int] == options@[i as int]@);
            let ghost before = out@.map_values(|a: (String, String)| (a.0@, a.1@));
            match crate::transport::EnvTransportProtocol::parse_option(options[i].as_str()) {
                crate::transport::EnvOption::Skip => {},
                crate::transport::EnvOption::Literal { key, value } => {
                    let ghost a = (key@, value@);
                    out.push((key, value));
                    assert(out@.map_values(|a: (String, String)| (a.0@, a.1@)) =~= before.push(a));
                },
                crate::transport::EnvOption::StateRef { key, state } => {
                    match self.state_branches(state.as_str()) {
                        Some(bs) => {
                            if bs.len() > 0 {
                                let val = bs[0].payload.to_string();
                                let ghost a = (key@, val@);
                                out.push((key, val));
                                assert(out@.map_values(|a: (String, String)| (a.0@, a.1@)) =~= before.push(a));
                            }
                        },
                        None => {},
                    }
                },
            }
            i = i + 1;
        }
        assert(ov.subrange(0, options@.len() as int) =~= ov);
        out
    }
}

} // verus!
