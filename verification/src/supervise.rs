//! Service decisions that span the store: which services follow a started
//! or stopped service through their `after` lists, and which services branch
//! with a state.
use crate::flow::{FlowDefinitionBase, FlowInstance, FlowItem, FlowPayload, FlowType};
use crate::store::{state_def_spec, signal_def_spec};
use crate::text::{trim, trim_spec};
use crate::transport::method_id;
use crate::triggers::{condition_spec, check_condition};
use crate::triggers::FlowChangeAction;
use crate::keyed::{Keyed, keys_unique, table, lemma_table_at};
use crate::services::{Service, ServiceState, StopMode, KillRequest, StopSignal, BranchStart, BranchServiceInstance, branch_start, branch_start_spec, branch_key_of, payload_branch_key, stop_branch_instance, stop_all_branches, first_branch, startable, stoppable, is_startable, is_stoppable, begin_start, stop_service, signal_for, branch_kills, branch_stopped};
use crate::store::{Store, strings_set, no_dups};
use crate::text::{concat, str_eq};
use crate::units::Unit;
use vstd::prelude::*;

verus! {

/// The services of a unit, none where it declares none.
pub open spec fn svc_list(u: Unit) -> Seq<Service> {
    match u.service {
        Some(v) => v@,
        None => Seq::empty(),
    }
}

/// Whether service `i` of the unit at `u` is enabled: its unit is enabled,
/// for all its components or for this one.
pub open spec fn service_enabled(s: Store, u: int, i: int) -> bool {
    let key = s.units@[u].key@;
    &&& s.enabled_sets().contains_key(key)
    &&& (s.enabled_sets()[key].is_empty() || s.enabled_sets()[key].contains(svc_list(s.units@[u].value)[i].name@))
}

/// Whether the `after` list of a service names `target`.
pub open spec fn waits_for(svc: Service, target: Seq<char>) -> bool {
    match svc.after {
        Some(a) => a@.map_values(|x: String| x@).contains(target),
        None => false,
    }
}

/// Whether service `i` of the unit at `u` follows `target`: for a start, an
/// enabled service that is inactive or exited cleanly; for a stop, any
/// service that is active or starting; either way one whose `after` names `target`.
pub open spec fn follows(s: Store, u: int, i: int, target: Seq<char>, start: bool) -> bool {
    &&& 0 <= u < s.units@.len()
    &&& 0 <= i < svc_list(s.units@[u].value).len()
    &&& waits_for(svc_list(s.units@[u].value)[i], target)
    &&& if start {
        service_enabled(s, u, i) && startable(svc_list(s.units@[u].value)[i].state)
    } else {
        stoppable(svc_list(s.units@[u].value)[i].state)
    }
}

/// Which services a selection picks: those that follow a target through
/// their `after` lists (for a start or a stop), or those that branch with a state.
pub enum Selector<'a> {
    Follow { target: &'a str, start: bool },
    Branching { state: &'a str },
    Trigger { trigger: &'a FlowInstance, action: FlowChangeAction, start: bool },
    Transport,
}

/// Whether service `i` of the unit at `u` branches with the state `name`:
/// its branching is enabled and has that source state.
pub open spec fn branches_with(s: Store, u: int, i: int, name: Seq<char>) -> bool {
    &&& 0 <= u < s.units@.len()
    &&& 0 <= i < svc_list(s.units@[u].value).len()
    &&& match svc_list(s.units@[u].value)[i].branching {
        Some(b) => b.enabled && b.source_state@ == name,
        None => false,
    }
}

/// The definition of the flow an instance names.
pub open spec fn trigger_def(units: Seq<Keyed<Unit>>, t: FlowInstance) -> Option<FlowDefinitionBase> {
    if t.flow_type == FlowType::State {
        state_def_spec(units, t.name@)
    } else {
        signal_def_spec(units, t.name@)
    }
}

/// Whether a definition lets the component `id` hear of the flow: it has no
/// broadcast list, or one that names `id`.
pub open spec fn in_broadcast(d: FlowDefinitionBase, id: Seq<char>) -> bool {
    match d.broadcast {
        Some(b) => b@.map_values(|x: String| x@).contains(id),
        None => true,
    }
}

/// Whether one of the conditions holds of the instance.
pub open spec fn any_cond(conds: Option<Vec<FlowItem>>, t: FlowInstance) -> bool {
    match conds {
        Some(c) => exists|k: int| 0 <= k < c@.len() && condition_spec(#[trigger] c@[k], t),
        None => false,
    }
}

/// Whether a change of the flow `t` starts (or, with `start` false, stops)
/// service `i` of the unit at `u`: the flow's definition lets the service
/// hear of it, and a `start-on` condition holds when it is applied (a
/// `stop-on` one when it is reverted); for a stop, the other way round.
pub open spec fn triggered(s: Store, u: int, i: int, t: FlowInstance, action: FlowChangeAction, start: bool) -> bool {
    &&& 0 <= u < s.units@.len()
    &&& 0 <= i < svc_list(s.units@[u].value).len()
    &&& trigger_def(s.units@, t) matches Some(d) && in_broadcast(d, comp_id(s.units@, u, i))
    &&& {
        let x = svc_list(s.units@[u].value)[i];
        if start == (action == FlowChangeAction::Apply) {
            any_cond(x.start_on, t)
        } else {
            any_cond(x.stop_on, t)
        }
    }
}

/// Whether service `i` of the unit at `u` has a transport with a name.
pub open spec fn has_transport(s: Store, u: int, i: int) -> bool {
    &&& 0 <= u < s.units@.len()
    &&& 0 <= i < svc_list(s.units@[u].value).len()
    &&& svc_list(s.units@[u].value)[i].transport matches Some(m) && trim_spec(method_id(m)).len() > 0
}

pub open spec fn selected(s: Store, u: int, i: int, sel: Selector) -> bool {
    match sel {
        Selector::Follow { target, start } => follows(s, u, i, target@, start),
        Selector::Branching { state } => branches_with(s, u, i, state@),
        Selector::Trigger { trigger, action, start } => triggered(s, u, i, *trigger, action, start),
        Selector::Transport => has_transport(s, u, i),
    }
}

/// Whether one of the conditions holds of the instance (see `any_cond`).
pub fn any_condition(conds: &Option<Vec<FlowItem>>, t: &FlowInstance) -> (r: bool)
    ensures
        r == any_cond(*conds, *t),
{
    match conds {
        Some(c) => {
            let mut k: usize = 0;
            while k < c.len()
                invariant
                    k <= c@.len(),
                    *conds == Some(*c),
                    forall|j: int| 0 <= j < k ==> !condition_spec(#[trigger] c@[j], *t),
                decreases c@.len() - k,
            {
                if check_condition(&c[k], t) {
                    proof {
                        let cc = conds->0;
                        assert(cc@ == c@);
                        assert(condition_spec(cc@[k as int], *t));
                    }
                    return true;
                }
                k = k + 1;
            }
            false
        },
        None => false,
    }
}

/// `(u, i)` is among the positions `v`.
pub open spec fn has_pos(v: Seq<(usize, usize)>, u: int, i: int) -> bool {
    exists|q: int| 0 <= q < v.len() && v[q].0 == u && v[q].1 == i
}

/// `(u, i)` comes before `(v, j)`.
pub open spec fn before(a: (usize, usize), b: (usize, usize)) -> bool {
    a.0 < b.0 || (a.0 == b.0 && a.1 < b.1)
}

/// The number of services in a state that `pred` picks, over the units.
pub open spec fn count_in(s: Seq<Service>, start: bool) -> nat
    decreases s.len(),
{
    if s.len() == 0 {
        0
    } else {
        count_in(s.drop_last(), start) + if (if start {
            startable(s.last().state)
        } else {
            stoppable(s.last().state)
        }) {
            1nat
        } else {
            0nat
        }
    }
}

pub open spec fn count_units(units: Seq<Keyed<Unit>>, start: bool) -> nat
    decreases units.len(),
{
    if units.len() == 0 {
        0
    } else {
        count_units(units.drop_last(), start) + count_in(svc_list(units.last().value), start)
    }
}

pub open spec fn picked(st: ServiceState, start: bool) -> nat {
    if (if start {
        startable(st)
    } else {
        stoppable(st)
    }) {
        1
    } else {
        0
    }
}

proof fn lemma_count_in_update(s: Seq<Service>, i: int, x: Service, start: bool)
    requires
        0 <= i < s.len(),
    ensures
        count_in(s.update(i, x), start) + picked(s[i].state, start) == count_in(s, start) + picked(x.state, start),
    decreases s.len(),
{
    let t = s.update(i, x);
    if i == s.len() - 1 {
        assert(t.drop_last() =~= s.drop_last());
    } else {
        lemma_count_in_update(s.drop_last(), i, x, start);
        assert(t.drop_last() =~= s.drop_last().update(i, x));
    }
}

proof fn lemma_count_units_update(units: Seq<Keyed<Unit>>, u: int, e: Keyed<Unit>, start: bool)
    requires
        0 <= u < units.len(),
    ensures
        count_units(units.update(u, e), start) + count_in(svc_list(units[u].value), start) == count_units(units, start)
            + count_in(svc_list(e.value), start),
    decreases units.len(),
{
    let t = units.update(u, e);
    if u == units.len() - 1 {
        assert(t.drop_last() =~= units.drop_last());
    } else {
        lemma_count_units_update(units.drop_last(), u, e, start);
        assert(t.drop_last() =~= units.drop_last().update(u, e));
    }
}

impl Store {
    /// Puts `svc` in place of service `i` of the unit at `u` and gives the
    /// service that was there; the entry keeps its key and everything else.
    fn swap_service(&mut self, u: usize, i: usize, svc: Service) -> (prev: Service)
        requires
            old(self).wf(),
            u < old(self).units@.len(),
            i < svc_list(old(self).units@[u as int].value).len(),
        ensures
            final(self).wf(),
            final(self).enabled == old(self).enabled,
            final(self).states == old(self).states,
            prev == svc_list(old(self).units@[u as int].value)[i as int],
            final(self).units@.len() == old(self).units@.len(),
            forall|v: int| 0 <= v < old(self).units@.len() && v != u ==> final(self).units@[v] == old(self).units@[v],
            final(self).units@[u as int].key == old(self).units@[u as int].key,
            final(self).units@[u as int].value == (Unit { service: final(self).units@[u as int].value.service, ..old(self).units@[u as int].value }),
            final(self).units@[u as int].value.service is Some,
            svc_list(final(self).units@[u as int].value) == svc_list(old(self).units@[u as int].value).update(i as int, svc),
            count_units(final(self).units@, true) + picked(prev.state, true) == count_units(old(self).units@, true) + picked(svc.state, true),
            count_units(final(self).units@, false) + picked(prev.state, false) == count_units(old(self).units@, false) + picked(svc.state, false),
    {
        let ghost before = self.units@;
        let mut e = self.units.remove(u);
        let mut svcs = match e.value.service.take() {
            Some(v) => v,
            None => Vec::new(),
        };
        let ghost sv = svcs@;
        let prev = svcs.remove(i);
        svcs.insert(i, svc);
        assert(svcs@ =~= sv.update(i as int, svc));
        e.value.service = Some(svcs);
        self.units.insert(u, e);
        proof {
            let ne = self.units@[u as int];
            assert(self.units@ =~= before.update(u as int, ne));
            assert forall|a: int, b: int|
                0 <= a < self.units@.len() && 0 <= b < self.units@.len() && a != b implies (#[trigger] self.units@[a]).key@
                != (#[trigger] self.units@[b]).key@ by {
                assert(before[a].key@ != before[b].key@);
            }
            lemma_count_in_update(sv, i as int, svc, true);
            lemma_count_in_update(sv, i as int, svc, false);
            lemma_count_units_update(before, u as int, ne, true);
            lemma_count_units_update(before, u as int, ne, false);
        }
        prev
    }

    /// Whether service `i` of the unit at `u` is enabled (see `service_enabled`).
    fn is_service_enabled(&self, u: usize, i: usize) -> (r: bool)
        requires
            self.wf(),
            u < self.units@.len(),
            i < svc_list(self.units@[u as int].value).len(),
        ensures
            r == service_enabled(*self, u as int, i as int),
    {
        let e = &self.units[u];
        assert(e.key@ == self.units@[u as int].key@);
        let name = match &e.value.service {
            Some(v) => &v[i].name,
            None => {
                assert(false);
                return false;
            },
        };
        match self.enabled_get(e.key.as_str()) {
            Some(filter) => {
                if filter.len() == 0 {
                    assert(strings_set(*filter) =~= Set::<Seq<char>>::empty());
                    true
                } else {
                    let mut j: usize = 0;
                    let ghost f = *filter;
                    proof {
                        assert(strings_set(f).contains(f@[0]@));
                    }
                    while j < filter.len()
                        invariant
                            j <= filter@.len(),
                            f == *filter,
                            u < self.units@.len(),
                            i < svc_list(self.units@[u as int].value).len(),
                            self.enabled_sets().contains_key(self.units@[u as int].key@),
                            self.enabled_sets()[self.units@[u as int].key@] == strings_set(f),
                            name@ == svc_list(self.units@[u as int].value)[i as int].name@,
                            forall|t: int| 0 <= t < j ==> (#[trigger] filter@[t])@ != name@,
                        decreases filter@.len() - j,
                    {
                        if str_eq(filter[j].as_str(), name.as_str()) {
                            assert(strings_set(f).contains(name@));
                            return true;
                        }
                        j = j + 1;
                    }
                    assert(!strings_set(f).contains(name@));
                    false
                }
            },
            None => false,
        }
    }

    /// Whether `sel` picks service `i` of the unit at `u`.
    fn check_at(&self, u: usize, i: usize, sel: &Selector) -> (r: bool)
        requires
            self.wf(),
            u < self.units@.len(),
            self.units@[u as int].value.service is Some,
            i < svc_list(self.units@[u as int].value).len(),
        ensures
            r == selected(*self, u as int, i as int, *sel),
    {
        let svc = match &self.units[u].value.service {
            Some(v) => &v[i],
            None => {
                return false;
            },
        };
        match sel {
            Selector::Follow { target, start } => {
                let target: &str = *target;
                let hit = match &svc.after {
                    Some(a) => {
                        let mut found = false;
                        let mut t: usize = 0;
                        while t < a.len()
                            invariant
                                t <= a@.len(),
                                found == a@.subrange(0, t as int).map_values(|x: String| x@).contains(target@),
                            decreases a@.len() - t,
                        {
                            let ghost pre = a@.subrange(0, t as int).map_values(|x: String| x@);
                            assert(a@.subrange(0, t + 1).map_values(|x: String| x@) =~= pre.push(a@[t as int]@));
                            if str_eq(a[t].as_str(), target) {
                                found = true;
                                assert(pre.push(a@[t as int]@)[pre.len() as int] == target@);
                            } else {
                                proof {
                                    if pre.push(a@[t as int]@).contains(target@) {
                                        let q = choose|q: int| 0 <= q < pre.len() + 1 && pre.push(a@[t as int]@)[q] == target@;
                                        if q < pre.len() {
                                            assert(pre[q] == target@);
                                        }
                                    }
                                    if found {
                                        let q = choose|q: int| 0 <= q < pre.len() && pre[q] == target@;
                                        assert(pre.push(a@[t as int]@)[q] == target@);
                                    }
                                }
                            }
                            t = t + 1;
                        }
                        assert(a@.subrange(0, a@.len() as int) =~= a@);
                        found
                    },
                    None => false,
                };
                if !hit {
                    false
                } else if *start {
                    is_startable(&svc.state) && self.is_service_enabled(u, i)
                } else {
                    is_stoppable(&svc.state)
                }
            },
            Selector::Branching { state } => {
                match &svc.branching {
                    Some(b) => b.enabled && str_eq(b.source_state.as_str(), *state),
                    None => false,
                }
            },
            Selector::Trigger { trigger, action, start } => {
                let def = if trigger.flow_type == FlowType::State {
                    self.lookup_state(trigger.name.as_str())
                } else {
                    self.lookup_signal(trigger.name.as_str())
                };
                let d = match def {
                    Some(d) => d,
                    None => {
                        return false;
                    },
                };
                let (id, _) = self.comp_id_at(u, i);
                let heard = match &d.broadcast {
                    Some(b) => crate::store::contains_text(b, id.as_str()),
                    None => true,
                };
                if !heard {
                    return false;
                }
                let conds = if *start == (*action == FlowChangeAction::Apply) {
                    &svc.start_on
                } else {
                    &svc.stop_on
                };
                any_condition(conds, *trigger)
            },
            Selector::Transport => {
                match &svc.transport {
                    Some(m) => trim(m.as_id().0.as_str()).unicode_len() > 0,
                    None => false,
                }
            },
        }
    }

    /// The services that `sel` picks (see `selected`), by unit and
    /// position, in table order.
    pub fn select(&self, sel: &Selector) -> (r: Vec<(usize, usize)>)
        requires
            self.wf(),
        ensures
            forall|k: int| 0 <= k < r@.len() ==> selected(*self, (#[trigger] r@[k]).0 as int, r@[k].1 as int, *sel),
            forall|a: int, b: int| 0 <= a < b < r@.len() ==> before(#[trigger] r@[a], #[trigger] r@[b]),
            forall|u: int, i: int| #[trigger] selected(*self, u, i, *sel) ==> has_pos(r@, u, i),
    {
        let mut out: Vec<(usize, usize)> = Vec::new();
        let mut u: usize = 0;
        while u < self.units.len()
            invariant
                self.wf(),
                u <= self.units@.len(),
                forall|k: int| 0 <= k < out@.len() ==> selected(*self, (#[trigger] out@[k]).0 as int, out@[k].1 as int, *sel),
                forall|k: int| 0 <= k < out@.len() ==> (#[trigger] out@[k]).0 < u,
                forall|a: int, b: int| 0 <= a < b < out@.len() ==> before(#[trigger] out@[a], #[trigger] out@[b]),
                forall|v: int, i: int| #[trigger] selected(*self, v, i, *sel) && v < u ==> has_pos(out@, v, i),
            decreases self.units@.len() - u,
        {
            match &self.units[u].value.service {
                Some(svcs) => {
                    let mut i: usize = 0;
                    let ghost out0 = out@;
                    while i < svcs.len()
                        invariant
                            self.wf(),
                            u < self.units@.len(),
                            self.units@[u as int].value.service == Some(*svcs),
                            i <= svcs@.len(),
                            out0.len() <= out@.len(),
                            out@.subrange(0, out0.len() as int) == out0,
                            forall|k: int| 0 <= k < out0.len() ==> (#[trigger] out0[k]).0 < u,
                            forall|k: int| 0 <= k < out@.len() ==> selected(*self, (#[trigger] out@[k]).0 as int, out@[k].1 as int, *sel),
                            forall|k: int| out0.len() <= k < out@.len() ==> (#[trigger] out@[k]).0 == u && out@[k].1 < i,
                            forall|a: int, b: int| 0 <= a < b < out@.len() ==> before(#[trigger] out@[a], #[trigger] out@[b]),
                            forall|v: int, j: int| #[trigger] selected(*self, v, j, *sel) && (v < u || (v == u && j < i)) ==> has_pos(out@, v, j),
                        decreases svcs@.len() - i,
                    {
                        let hit = self.check_at(u, i, sel);
                        if hit {
                            let ghost ob = out@;
                            out.push((u, i));
                            proof {
                                assert(out@.subrange(0, out0.len() as int) =~= ob.subrange(0, out0.len() as int));
                                assert forall|a: int, b: int| 0 <= a < b < out@.len() implies before(#[trigger] out@[a], #[trigger] out@[b]) by {
                                    if b == out@.len() - 1 && a < ob.len() {
                                        assert(out@[a] == ob[a]);
                                        if a < out0.len() {
                                            assert(out0[a] == ob[a]);
                                        }
                                    } else if b < ob.len() {
                                        assert(out@[a] == ob[a]);
                                        assert(out@[b] == ob[b]);
                                    }
                                }
                                assert forall|v: int, j: int| #[trigger] selected(*self, v, j, *sel) && (v < u || (v == u && j < i + 1)) implies has_pos(out@, v, j) by {
                                    if v == u && j == i {
                                        assert(out@[ob.len() as int] == (u, i));
                                    } else {
                                        let q = choose|q: int| 0 <= q < ob.len() && ob[q].0 == v && ob[q].1 == j;
                                        assert(out@[q] == ob[q]);
                                    }
                                }
                            }
                        } else {
                            proof {
                                assert(!selected(*self, u as int, i as int, *sel));
                            }
                        }
                        i = i + 1;
                    }
                    proof {
                        assert forall|v: int, j: int| #[trigger] selected(*self, v, j, *sel) && v < u + 1 implies has_pos(out@, v, j) by {
                            if v == u {
                                assert(j < svcs@.len());
                            }
                        }
                        assert forall|k: int| 0 <= k < out@.len() implies (#[trigger] out@[k]).0 < u + 1 by {
                            if k < out0.len() {
                                assert(out@[k] == out0[k]);
                            }
                        }
                    }
                },
                None => {
                    proof {
                        assert forall|v: int, j: int| #[trigger] selected(*self, v, j, *sel) && v < u + 1 implies has_pos(out@, v, j) by {
                            if v == u {
                                assert(svc_list(self.units@[u as int].value).len() == 0);
                            }
                        }
                    }
                },
            }
            u = u + 1;
        }
        out
    }
}

/// What a stop makes of a service (see `stop_service`).
pub open spec fn stop_result(x: Service, y: Service) -> bool {
    &&& y.state == if x.pid is Some {
        ServiceState::Stopping
    } else {
        ServiceState::Inactive
    }
    &&& y.manually_stopped == (x.manually_stopped || x.pid is Some)
    &&& y == (Service { state: y.state, manually_stopped: y.manually_stopped, branch_instances: y.branch_instances, ..x })
    &&& y.branch_instances@.len() == x.branch_instances@.len()
    &&& forall|j: int| 0 <= j < x.branch_instances@.len() ==> branch_stopped(#[trigger] x.branch_instances@[j], y.branch_instances@[j])
}

/// A service that a start of dependents may leave or mark `Starting`; one
/// that a stop of dependents may leave or stop.
pub open spec fn step_ok(x: Service, y: Service, start: bool) -> bool {
    ||| y == x
    ||| (start && y == (Service { state: ServiceState::Starting, ..x }))
    ||| (!start && stop_result(x, y))
}

/// The units `b` are the units `a` with services changed by steps (see `step_ok`).
pub open spec fn evolved(a: Seq<Keyed<Unit>>, b: Seq<Keyed<Unit>>, start: bool) -> bool {
    &&& a.len() == b.len()
    &&& forall|u: int| 0 <= u < a.len() ==> (#[trigger] b[u]).key == a[u].key
    &&& forall|u: int| 0 <= u < a.len() ==> (#[trigger] b[u]).value == (Unit { service: b[u].value.service, ..a[u].value })
    &&& forall|u: int| 0 <= u < a.len() ==> ((#[trigger] b[u]).value.service is Some <==> a[u].value.service is Some)
    &&& forall|u: int| 0 <= u < a.len() ==> svc_list((#[trigger] b[u]).value).len() == svc_list(a[u].value).len()
    &&& forall|u: int, i: int|
        0 <= u < a.len() && 0 <= i < svc_list(a[u].value).len() ==> step_ok(
            svc_list(a[u].value)[i],
            #[trigger] svc_list(b[u].value)[i],
            start,
        )
}

proof fn lemma_step_trans(x: Service, y: Service, z: Service, start: bool)
    requires
        step_ok(x, y, start),
        step_ok(y, z, start),
    ensures
        step_ok(x, z, start),
{
    if !start && stop_result(x, y) && stop_result(y, z) {
        assert forall|j: int| 0 <= j < x.branch_instances@.len() implies branch_stopped(#[trigger] x.branch_instances@[j], z.branch_instances@[j]) by {
            assert(branch_stopped(x.branch_instances@[j], y.branch_instances@[j]));
            assert(branch_stopped(y.branch_instances@[j], z.branch_instances@[j]));
        }
    }
}

proof fn lemma_evolved_trans(a: Seq<Keyed<Unit>>, b: Seq<Keyed<Unit>>, c: Seq<Keyed<Unit>>, start: bool)
    requires
        evolved(a, b, start),
        evolved(b, c, start),
    ensures
        evolved(a, c, start),
{
    assert forall|u: int, i: int| 0 <= u < a.len() && 0 <= i < svc_list(a[u].value).len() implies step_ok(
        svc_list(a[u].value)[i],
        #[trigger] svc_list(c[u].value)[i],
        start,
    ) by {
        assert(step_ok(svc_list(a[u].value)[i], svc_list(b[u].value)[i], start));
        assert(step_ok(svc_list(b[u].value)[i], svc_list(c[u].value)[i], start));
        lemma_step_trans(svc_list(a[u].value)[i], svc_list(b[u].value)[i], svc_list(c[u].value)[i], start);
    }
    assert forall|u: int| 0 <= u < a.len() implies (#[trigger] c[u]).value == (Unit { service: c[u].value.service, ..a[u].value }) by {
        assert(b[u].value == (Unit { service: b[u].value.service, ..a[u].value }));
        assert(c[u].value == (Unit { service: c[u].value.service, ..b[u].value }));
    }
}

/// The full name `unit@service` of service `i` of the unit at `u`.
pub open spec fn comp_id(units: Seq<Keyed<Unit>>, u: int, i: int) -> Seq<char> {
    units[u].key@ + "@"@ + svc_list(units[u].value)[i].name@
}

/// The state a start of dependents leaves a service it marks in (`Starting`),
/// or a stop of dependents one it stops in (one that cannot be stopped again).
pub open spec fn done_state(st: ServiceState, start: bool) -> bool {
    if start {
        st == ServiceState::Starting
    } else {
        !stoppable(st)
    }
}

/// Some service of the store has the full name `name`, is in a done state,
/// and nothing follows its name any more (for a start: no enabled service
/// that could start waits for it; for a stop: no running service does).
pub open spec fn listed_closed(s: Store, name: Seq<char>, start: bool) -> bool {
    exists|u: int, i: int|
        #![trigger svc_list(s.units@[u].value)[i]]
        {
            &&& 0 <= u < s.units@.len()
            &&& 0 <= i < svc_list(s.units@[u].value).len()
            &&& comp_id(s.units@, u, i) == name
            &&& done_state(svc_list(s.units@[u].value)[i].state, start)
            &&& forall|v: int, j: int| !#[trigger] follows(s, v, j, svc_list(s.units@[u].value)[i].name@, start)
        }
}

/// Service `i` of the unit at `u` follows `target`, or the bare name of a
/// service whose full name stands in `names` before position `t`.
pub open spec fn reached(s: Store, u: int, i: int, target: Seq<char>, names: Seq<Seq<char>>, t: int, start: bool) -> bool {
    ||| follows(s, u, i, target, start)
    ||| exists|t2: int, v: int, j: int|
        #![trigger names[t2], svc_list(s.units@[v].value)[j]]
        {
            &&& 0 <= t2 < t
            &&& 0 <= v < s.units@.len()
            &&& 0 <= j < svc_list(s.units@[v].value).len()
            &&& comp_id(s.units@, v, j) == names[t2]
            &&& follows(s, u, i, svc_list(s.units@[v].value)[j].name@, start)
        }
}

/// Every service that differs between `a` and `b` has its full name in
/// `names`, at a position where, in `a`, it follows `target` or the name of a
/// service listed before it.
pub open spec fn changed_reached(a: Store, b: Store, names: Seq<Seq<char>>, target: Seq<char>, start: bool) -> bool {
    forall|u: int, i: int|
        0 <= u < a.units@.len() && 0 <= i < svc_list(a.units@[u].value).len()
            && #[trigger] svc_list(b.units@[u].value)[i] != svc_list(a.units@[u].value)[i]
            ==> exists|t: int|
                0 <= t < names.len() && names[t] == comp_id(a.units@, u, i) && #[trigger] reached(a, u, i, target, names, t, start)
}

/// A service that follows a name in a store evolved from `a`, with the same
/// enabled units, is the one of `a` and follows that name there too.
proof fn lemma_follows_back(a: Store, b: Store, u: int, i: int, n: Seq<char>, start: bool)
    requires
        evolved(a.units@, b.units@, start),
        a.enabled == b.enabled,
        follows(b, u, i, n, start),
    ensures
        follows(a, u, i, n, start),
        svc_list(b.units@[u].value)[i] == svc_list(a.units@[u].value)[i],
{
    let x = svc_list(a.units@[u].value)[i];
    let y = svc_list(b.units@[u].value)[i];
    assert(step_ok(x, y, start));
    if y != x {
        if !start {
            assert(stop_result(x, y));
        }
    }
    assert(b.units@[u].key == a.units@[u].key);
    assert(a.enabled_sets() == b.enabled_sets());
}

/// Reaching stays true where the list of names grows at its end.
proof fn lemma_reached_extend(s: Store, u: int, i: int, target: Seq<char>, a: Seq<Seq<char>>, b: Seq<Seq<char>>, t: int, start: bool)
    requires
        reached(s, u, i, target, a, t, start),
        0 <= t <= a.len() <= b.len(),
        b.subrange(0, a.len() as int) == a,
    ensures
        reached(s, u, i, target, b, t, start),
{
    if !follows(s, u, i, target, start) {
        let (t2, v, j) = choose|t2: int, v: int, j: int|
            #![trigger a[t2], svc_list(s.units@[v].value)[j]]
            {
                &&& 0 <= t2 < t
                &&& 0 <= v < s.units@.len()
                &&& 0 <= j < svc_list(s.units@[v].value).len()
                &&& comp_id(s.units@, v, j) == a[t2]
                &&& follows(s, u, i, svc_list(s.units@[v].value)[j].name@, start)
            };
        assert(b[t2] == b.subrange(0, a.len() as int)[t2]);
        assert(b[t2] == a[t2]);
    }
}

/// What a nested call reached from the bare name `n` of the service at
/// `(pu, pi)`, listed at `p`, the outer call reached from its own target:
/// through that service, or through a name listed after it.
proof fn lemma_reached_lift(
    s0: Store,
    s1: Store,
    pu: int,
    pi: int,
    v: int,
    j: int,
    n: Seq<char>,
    target: Seq<char>,
    prefix: Seq<Seq<char>>,
    more: Seq<Seq<char>>,
    t: int,
    p: int,
    start: bool,
)
    requires
        evolved(s0.units@, s1.units@, start),
        s0.enabled == s1.enabled,
        0 <= pu < s0.units@.len(),
        0 <= pi < svc_list(s0.units@[pu].value).len(),
        svc_list(s0.units@[pu].value)[pi].name@ == n,
        0 <= p < prefix.len(),
        prefix[p] == comp_id(s0.units@, pu, pi),
        0 <= t < more.len(),
        reached(s1, v, j, n, more, t, start),
    ensures
        reached(s0, v, j, target, prefix + more, prefix.len() + t, start),
{
    let names = prefix + more;
    if follows(s1, v, j, n, start) {
        lemma_follows_back(s0, s1, v, j, n, start);
        assert(names[p] == prefix[p]);
        assert(follows(s0, v, j, svc_list(s0.units@[pu].value)[pi].name@, start));
    } else {
        let (t2, w, m) = choose|t2: int, w: int, m: int|
            #![trigger more[t2], svc_list(s1.units@[w].value)[m]]
            {
                &&& 0 <= t2 < t
                &&& 0 <= w < s1.units@.len()
                &&& 0 <= m < svc_list(s1.units@[w].value).len()
                &&& comp_id(s1.units@, w, m) == more[t2]
                &&& follows(s1, v, j, svc_list(s1.units@[w].value)[m].name@, start)
            };
        let x = svc_list(s0.units@[w].value)[m];
        let y = svc_list(s1.units@[w].value)[m];
        assert(step_ok(x, y, start));
        assert(y.name == x.name);
        assert(s1.units@[w].key == s0.units@[w].key);
        assert(comp_id(s1.units@, w, m) == comp_id(s0.units@, w, m));
        lemma_follows_back(s0, s1, v, j, y.name@, start);
        assert(names[prefix.len() + t2] == more[t2]);
        assert(svc_list(s0.units@[w].value)[m] == x);
    }
}

/// A start of `target` takes every enabled service that waits for it and is
/// inactive or exited cleanly; a stop of `target` takes every service that
/// waits for it and is active or starting.
pub proof fn law_idle_dependent_follows(s: Store, u: int, i: int, target: Seq<char>)
    requires
        0 <= u < s.units@.len(),
        0 <= i < svc_list(s.units@[u].value).len(),
        waits_for(svc_list(s.units@[u].value)[i], target),
    ensures
        service_enabled(s, u, i) && (svc_list(s.units@[u].value)[i].state is Inactive
            || svc_list(s.units@[u].value)[i].state == ServiceState::Exited(0)) ==> follows(s, u, i, target, true),
        svc_list(s.units@[u].value)[i].state is Active || svc_list(s.units@[u].value)[i].state is Starting
            ==> follows(s, u, i, target, false),
{
}

proof fn lemma_no_follow_kept(a: Store, b: Store, target: Seq<char>, start: bool)
    requires
        evolved(a.units@, b.units@, start),
        a.enabled == b.enabled,
        forall|v: int, j: int| !#[trigger] follows(a, v, j, target, start),
    ensures
        forall|v: int, j: int| !#[trigger] follows(b, v, j, target, start),
{
    assert forall|v: int, j: int| !#[trigger] follows(b, v, j, target, start) by {
        if follows(b, v, j, target, start) {
            let x2 = svc_list(a.units@[v].value)[j];
            let y2 = svc_list(b.units@[v].value)[j];
            assert(step_ok(x2, y2, start));
            if y2 != x2 {
                if !start {
                    assert(stop_result(x2, y2));
                }
            }
            assert(b.units@[v].key == a.units@[v].key);
            assert(a.enabled_sets() == b.enabled_sets());
            assert(follows(a, v, j, target, start));
        }
    }
}

proof fn lemma_closed_kept(a: Store, b: Store, name: Seq<char>, start: bool)
    requires
        evolved(a.units@, b.units@, start),
        a.enabled == b.enabled,
        listed_closed(a, name, start),
    ensures
        listed_closed(b, name, start),
{
    let (u, i) = choose|u: int, i: int|
        #![trigger svc_list(a.units@[u].value)[i]]
        {
            &&& 0 <= u < a.units@.len()
            &&& 0 <= i < svc_list(a.units@[u].value).len()
            &&& comp_id(a.units@, u, i) == name
            &&& done_state(svc_list(a.units@[u].value)[i].state, start)
            &&& forall|v: int, j: int| !#[trigger] follows(a, v, j, svc_list(a.units@[u].value)[i].name@, start)
        };
    let x = svc_list(a.units@[u].value)[i];
    let y = svc_list(b.units@[u].value)[i];
    assert(step_ok(x, y, start));
    assert(y.name == x.name);
    assert(comp_id(b.units@, u, i) == comp_id(a.units@, u, i));
    assert(done_state(y.state, start));
    lemma_no_follow_kept(a, b, x.name@, start);
}

proof fn lemma_stop_step(
    s0: Seq<Keyed<Unit>>,
    b1: Seq<Keyed<Unit>>,
    ps: Seq<(usize, usize)>,
    u: usize,
    i: usize,
    sd0: Seq<String>,
    id: String,
    mr: Seq<String>,
    kv1: Seq<KillRequest>,
    mkv: Seq<KillRequest>,
    mode: StopMode,
) -> (psn: Seq<(usize, usize)>)
    requires
        stopped_at(s0, ps, sd0),
        0 <= u < s0.len(),
        0 <= i < svc_list(s0[u as int].value).len(),
        comp_id(s0, u as int, i as int) == id@,
        stoppable(svc_list(s0[u as int].value)[i as int].state),
        kv1 == stop_kills_for(s0, ps.push((u, i)), mode),
        evolved(s0, b1, false),
        exists|pm: Seq<(usize, usize)>|
            #![trigger stop_kills_for(b1, pm, mode)]
            stopped_at(b1, pm, mr) && mkv == stop_kills_for(b1, pm, mode),
    ensures
        stopped_at(s0, psn, sd0.push(id) + mr),
        kv1 + mkv == stop_kills_for(s0, psn, mode),
{
    let pm = choose|pm: Seq<(usize, usize)>|
        #![trigger stop_kills_for(b1, pm, mode)]
        stopped_at(b1, pm, mr) && mkv == stop_kills_for(b1, pm, mode);
    lemma_stopped_at_back(s0, b1, pm, mr);
    lemma_stop_kills_evolved(s0, b1, pm, mode);
    let ps1 = ps.push((u, i));
    lemma_stop_kills_concat(s0, ps1, pm, mode);
    let psn = ps1 + pm;
    let names = sd0.push(id) + mr;
    assert(valid_positions(s0, psn)) by {
        assert forall|t: int| 0 <= t < psn.len() implies {
            let (v, j) = #[trigger] psn[t];
            0 <= v < s0.len() && 0 <= j < svc_list(s0[v as int].value).len()
        } by {
            if t < ps.len() {
                assert(psn[t] == ps[t]);
            } else if t == ps.len() {
                assert(psn[t] == (u, i));
            } else {
                assert(psn[t] == pm[t - ps1.len()]);
            }
        }
    }
    assert forall|t: int| 0 <= t < psn.len() implies {
        let (v, j) = psn[t];
        &&& comp_id(s0, v as int, j as int) == (#[trigger] names[t])@
        &&& stoppable(svc_list(s0[v as int].value)[j as int].state)
    } by {
        if t < ps.len() {
            assert(psn[t] == ps[t]);
            assert(names[t] == sd0[t]);
            let n = sd0[t];
        } else if t == ps.len() {
            assert(psn[t] == (u, i));
            assert(names[t] == id);
        } else {
            assert(psn[t] == pm[t - ps1.len()]);
            assert(names[t] == mr[t - ps1.len()]);
            let n = mr[t - ps1.len()];
        }
    }
    psn
}

impl Store {
    fn comp_id_at(&self, u: usize, i: usize) -> (r: (String, String))
        requires
            u < self.units@.len(),
            i < svc_list(self.units@[u as int].value).len(),
        ensures
            r.0@ == comp_id(self.units@, u as int, i as int),
            r.1@ == svc_list(self.units@[u as int].value)[i as int].name@,
    {
        let e = &self.units[u];
        match &e.value.service {
            Some(v) => {
                let a = concat(e.key.as_str(), "@");
                (concat(a.as_str(), v[i].name.as_str()), v[i].name.clone())
            },
            None => {
                assert(false);
                (String::new(), String::new())
            },
        }
    }

    /// Starts what waits for `target`: each enabled service that is inactive
    /// or exited cleanly and whose `after` names `target` is marked
    /// `Starting`, and then what waits for it, depth first. Gives the full
    /// names of the services to spawn, in order. Afterwards no enabled
    /// service that could start waits for `target` or for any service it marked.
    pub fn start_dependents(&mut self, target: &str) -> (started: Vec<String>)
        requires
            old(self).wf(),
        ensures
            final(self).wf(),
            final(self).enabled == old(self).enabled,
            final(self).states == old(self).states,
            evolved(old(self).units@, final(self).units@, true),
            count_units(final(self).units@, true) <= count_units(old(self).units@, true),
            forall|u: int, i: int| !#[trigger] follows(*final(self), u, i, target@, true),
            changed_reached(*old(self), *final(self), started@.map_values(|x: String| x@), target@, true),
            forall|u: int, i: int|
                0 <= u < old(self).units@.len() && 0 <= i < svc_list(old(self).units@[u].value).len()
                    && waits_for(svc_list(old(self).units@[u].value)[i], target@) && service_enabled(*old(self), u, i)
                    && (svc_list(old(self).units@[u].value)[i].state is Inactive
                        || svc_list(old(self).units@[u].value)[i].state == ServiceState::Exited(0))
                    ==> (#[trigger] svc_list(final(self).units@[u].value)[i]).state == ServiceState::Starting,
            forall|t: int| 0 <= t < started@.len() ==> listed_closed(*final(self), (#[trigger] started@[t])@, true),
        decreases count_units(old(self).units@, true),
    {
        let ghost s0 = *self;
        let sel = Selector::Follow { target, start: true };
        let to_start = self.select(&sel);
        assert(forall|u: int, i: int|
            #![trigger selected(s0, u, i, sel)]
            #![trigger follows(s0, u, i, target@, true)]
            selected(s0, u, i, sel) == follows(s0, u, i, target@, true));
        let mut started: Vec<String> = Vec::new();
        let mut k: usize = 0;
        while k < to_start.len()
            invariant
                self.wf(),
                self.enabled == s0.enabled,
                self.states == s0.states,
                s0.wf(),
                s0 == *old(self),
                evolved(s0.units@, self.units@, true),
                count_units(self.units@, true) <= count_units(s0.units@, true),
                k > 0 ==> count_units(self.units@, true) < count_units(s0.units@, true),
                k == 0 ==> self.units@ == s0.units@,
                k <= to_start@.len(),
                forall|q: int| 0 <= q < to_start@.len() ==> follows(s0, (#[trigger] to_start@[q]).0 as int, to_start@[q].1 as int, target@, true),
                forall|u: int, i: int| #[trigger] follows(s0, u, i, target@, true) ==> has_pos(to_start@, u, i),
                forall|q: int| 0 <= q < k ==> svc_list(self.units@[(#[trigger] to_start@[q]).0 as int].value)[to_start@[q].1 as int].state == ServiceState::Starting,
                changed_reached(s0, *self, started@.map_values(|x: String| x@), target@, true),
                forall|t: int| 0 <= t < started@.len() ==> listed_closed(*self, (#[trigger] started@[t])@, true),
            decreases to_start@.len() - k,
        {
            let (u, i) = to_start[k];
            assert(follows(s0, u as int, i as int, target@, true));
            let ghost b0 = self.units@;
            let ghost sb0 = *self;
            let (id, name) = self.comp_id_at(u, i);
            assert(self.units@[u as int].key == s0.units@[u as int].key);
            let ghost cur = svc_list(self.units@[u as int].value)[i as int];
            // take the service out and put it back marked
            let mut svc = self.swap_service(u, i, placeholder_service());
            begin_start(&mut svc);
            let ghost marked = svc;
            self.swap_service(u, i, svc);
            proof {
                assert(svc_list(self.units@[u as int].value) =~= svc_list(b0[u as int].value).update(i as int, marked));
                assert(step_ok(cur, marked, true));
                assert(evolved(b0, self.units@, true)) by {
                    assert forall|v: int, j: int| 0 <= v < b0.len() && 0 <= j < svc_list(b0[v].value).len() implies step_ok(
                        svc_list(b0[v].value)[j],
                        #[trigger] svc_list(self.units@[v].value)[j],
                        true,
                    ) by {
                        if v == u && j == i {
                        } else if v == u {
                            assert(svc_list(self.units@[v].value)[j] == svc_list(b0[v].value)[j]);
                        }
                    }
                }
                lemma_evolved_trans(s0.units@, b0, self.units@, true);
                if k == 0 {
                    assert(startable(cur.state));
                }
            }
            let ghost st0 = started@.map_values(|x: String| x@);
            let ghost sd0 = started@;
            proof {
                assert forall|t: int| 0 <= t < sd0.len() implies listed_closed(*self, (#[trigger] sd0[t])@, true) by {
                    lemma_closed_kept(sb0, *self, sd0[t]@, true);
                }
                assert(svc_list(self.units@[u as int].value)[i as int].state == ServiceState::Starting);
                assert(comp_id(self.units@, u as int, i as int) == comp_id(s0.units@, u as int, i as int));
            }
            started.push(id);
            assert(started@.map_values(|x: String| x@) =~= st0.push(comp_id(s0.units@, u as int, i as int)));
            let ghost b1 = self.units@;
            let ghost sb1 = *self;
            let ghost sd1 = started@;
            let more = self.start_dependents(name.as_str());
            proof {
                lemma_evolved_trans(s0.units@, b1, self.units@, true);
            }
            let ghost st1 = started@.map_values(|x: String| x@);
            let mut more = more;
            let ghost mv = more@.map_values(|x: String| x@);
            let ghost mr = more@;
            started.append(&mut more);
            proof {
                assert(started@.map_values(|x: String| x@) =~= st1 + mv);
                assert(started@ =~= sd1 + mr);
                assert(svc_list(b1[u as int].value)[i as int].name@ == name@);
                assert(listed_closed(*self, id@, true)) by {
                    let y = svc_list(self.units@[u as int].value)[i as int];
                    assert(step_ok(svc_list(b1[u as int].value)[i as int], y, true));
                    assert(y.name@ == name@);
                    assert(comp_id(self.units@, u as int, i as int) == comp_id(s0.units@, u as int, i as int));
                }
                assert forall|t: int| 0 <= t < started@.len() implies listed_closed(*self, (#[trigger] started@[t])@, true) by {
                    if t < sd1.len() {
                        assert(started@[t] == sd1[t]);
                        if t < sd0.len() {
                            assert(sd1[t] == sd0[t]);
                            assert(listed_closed(sb1, sd1[t]@, true));
                            lemma_closed_kept(sb1, *self, sd1[t]@, true);
                        } else {
                            assert(sd1[t] == id);
                        }
                    } else {
                        assert(started@[t] == mr[t - sd1.len()]);
                    }
                }
                assert forall|q: int| 0 <= q < k + 1 implies svc_list(self.units@[(#[trigger] to_start@[q]).0 as int].value)[to_start@[q].1 as int].state
                    == ServiceState::Starting by {
                    let (v, j) = to_start@[q];
                    assert(follows(s0, v as int, j as int, target@, true));
                    if q < k {
                        assert(svc_list(b0[v as int].value)[j as int].state == ServiceState::Starting);
                    }
                    assert(svc_list(b1[v as int].value)[j as int].state == ServiceState::Starting);
                    assert(step_ok(svc_list(b1[v as int].value)[j as int], svc_list(self.units@[v as int].value)[j as int], true));
                }
                let sv = started@.map_values(|x: String| x@);
                assert(sv.subrange(0, st0.len() as int) =~= st0);
                assert(sv.subrange(0, st1.len() as int) =~= st1);
                assert(step_ok(svc_list(s0.units@[u as int].value)[i as int], svc_list(b0[u as int].value)[i as int], true));
                assert(svc_list(s0.units@[u as int].value)[i as int].name@ == name@);
                assert forall|v: int, j: int|
                    0 <= v < s0.units@.len() && 0 <= j < svc_list(s0.units@[v].value).len()
                        && #[trigger] svc_list(self.units@[v].value)[j] != svc_list(s0.units@[v].value)[j]
                        implies exists|t: int|
                            0 <= t < sv.len() && sv[t] == comp_id(s0.units@, v, j) && #[trigger] reached(s0, v, j, target@, sv, t, true) by {
                    if svc_list(b0[v].value)[j] != svc_list(s0.units@[v].value)[j] {
                        let t = choose|t: int|
                            0 <= t < st0.len() && st0[t] == comp_id(s0.units@, v, j) && #[trigger] reached(s0, v, j, target@, st0, t, true);
                        lemma_reached_extend(s0, v, j, target@, st0, sv, t, true);
                        assert(sv[t] == st0[t]);
                    } else if svc_list(b1[v].value)[j] != svc_list(b0[v].value)[j] {
                        assert(v == u && j == i);
                        assert(sv[st0.len() as int] == comp_id(s0.units@, v, j));
                        assert(reached(s0, v, j, target@, sv, st0.len() as int, true));
                    } else {
                        assert(svc_list(self.units@[v].value)[j] != svc_list(b1[v].value)[j]);
                        assert(b1[v].key == s0.units@[v].key);
                        assert(svc_list(b1[v].value)[j].name == svc_list(s0.units@[v].value)[j].name);
                        assert(comp_id(b1, v, j) == comp_id(s0.units@, v, j));
                        let t = choose|t: int|
                            0 <= t < mv.len() && mv[t] == comp_id(sb1.units@, v, j) && #[trigger] reached(sb1, v, j, name@, mv, t, true);
                        assert(st1[st0.len() as int] == comp_id(s0.units@, u as int, i as int));
                        lemma_reached_lift(s0, sb1, u as int, i as int, v, j, name@, target@, st1, mv, t, st0.len() as int, true);
                        assert(sv =~= st1 + mv);
                        assert(sv[st1.len() + t] == mv[t]);
                    }
                }
            }
            k = k + 1;
        }
        proof {
            assert forall|u: int, i: int| !#[trigger] follows(*self, u, i, target@, true) by {
                if follows(*self, u, i, target@, true) {
                    let x = svc_list(s0.units@[u].value)[i];
                    let y = svc_list(self.units@[u].value)[i];
                    assert(step_ok(x, y, true));
                    assert(y == x);
                    assert(follows(s0, u, i, target@, true));
                    assert(has_pos(to_start@, u, i));
                    let q = choose|q: int| 0 <= q < to_start@.len() && to_start@[q].0 == u && to_start@[q].1 == i;
                    assert(svc_list(self.units@[(to_start@[q]).0 as int].value)[to_start@[q].1 as int].state == ServiceState::Starting);
                    assert(y.state == ServiceState::Starting);
                }
            }
            assert forall|u: int, i: int|
                0 <= u < s0.units@.len() && 0 <= i < svc_list(s0.units@[u].value).len()
                    && waits_for(svc_list(s0.units@[u].value)[i], target@) && service_enabled(s0, u, i)
                    && (svc_list(s0.units@[u].value)[i].state is Inactive
                        || svc_list(s0.units@[u].value)[i].state == ServiceState::Exited(0))
                    implies (#[trigger] svc_list(self.units@[u].value)[i]).state == ServiceState::Starting by {
                let x = svc_list(s0.units@[u].value)[i];
                let y = svc_list(self.units@[u].value)[i];
                law_idle_dependent_follows(s0, u, i, target@);
                assert(step_ok(x, y, true));
                if y == x {
                    assert(self.units@[u].key == s0.units@[u].key);
                    assert(self.enabled_sets() == s0.enabled_sets());
                    assert(follows(*self, u, i, target@, true));
                }
            }
        }
        started
    }
}

impl Store {
    /// Stops what depends on `target`: each service that is active or
    /// starting and whose `after` names `target` is stopped (see
    /// `stop_service`), and then what depends on it, depth first. Gives the
    /// full names of the services stopped, in order, and the signals to
    /// send. Afterwards no running service waits for `target` or for any
    /// service it stopped.
    #[verifier::rlimit(60)]
    pub fn stop_dependents(&mut self, target: &str, mode: StopMode) -> (r: (Vec<String>, Vec<KillRequest>))
        requires
            old(self).wf(),
        ensures
            final(self).wf(),
            final(self).enabled == old(self).enabled,
            final(self).states == old(self).states,
            evolved(old(self).units@, final(self).units@, false),
            count_units(final(self).units@, false) <= count_units(old(self).units@, false),
            forall|u: int, i: int| !#[trigger] follows(*final(self), u, i, target@, false),
            changed_reached(*old(self), *final(self), r.0@.map_values(|x: String| x@), target@, false),
            forall|u: int, i: int|
                0 <= u < old(self).units@.len() && 0 <= i < svc_list(old(self).units@[u].value).len()
                    && waits_for(svc_list(old(self).units@[u].value)[i], target@)
                    && (svc_list(old(self).units@[u].value)[i].state is Active
                        || svc_list(old(self).units@[u].value)[i].state is Starting)
                    ==> ((#[trigger] svc_list(final(self).units@[u].value)[i]).state == ServiceState::Stopping
                        || svc_list(final(self).units@[u].value)[i].state == ServiceState::Inactive),
            forall|t: int| 0 <= t < r.0@.len() ==> listed_closed(*final(self), (#[trigger] r.0@[t])@, false),
            forall|t: int| 0 <= t < r.1@.len() ==> (#[trigger] r.1@[t]).signal == signal_for(mode),
            exists|ps: Seq<(usize, usize)>|
                #![trigger stop_kills_for(old(self).units@, ps, mode)]
                stopped_at(old(self).units@, ps, r.0@) && r.1@ == stop_kills_for(old(self).units@, ps, mode),
        decreases count_units(old(self).units@, false),
    {
        let ghost s0 = *self;
        let sel = Selector::Follow { target, start: false };
        let to_stop = self.select(&sel);
        assert(forall|u: int, i: int|
            #![trigger selected(s0, u, i, sel)]
            #![trigger follows(s0, u, i, target@, false)]
            selected(s0, u, i, sel) == follows(s0, u, i, target@, false));
        let mut stopped: Vec<String> = Vec::new();
        let mut kills: Vec<KillRequest> = Vec::new();
        let ghost mut ps: Seq<(usize, usize)> = Seq::empty();
        let mut k: usize = 0;
        proof {
            assert(stop_kills_for(s0.units@, ps, mode) =~= Seq::<KillRequest>::empty());
            assert(kills@ =~= Seq::<KillRequest>::empty());
        }
        while k < to_stop.len()
            invariant
                self.wf(),
                self.enabled == s0.enabled,
                self.states == s0.states,
                s0.wf(),
                s0 == *old(self),
                evolved(s0.units@, self.units@, false),
                count_units(self.units@, false) <= count_units(s0.units@, false),
                k > 0 ==> count_units(self.units@, false) < count_units(s0.units@, false),
                k == 0 ==> self.units@ == s0.units@,
                k <= to_stop@.len(),
                forall|q: int| 0 <= q < to_stop@.len() ==> follows(s0, (#[trigger] to_stop@[q]).0 as int, to_stop@[q].1 as int, target@, false),
                forall|u: int, i: int| #[trigger] follows(s0, u, i, target@, false) ==> has_pos(to_stop@, u, i),
                forall|q: int| 0 <= q < k ==> !stoppable(svc_list(self.units@[(#[trigger] to_stop@[q]).0 as int].value)[to_stop@[q].1 as int].state),
                changed_reached(s0, *self, stopped@.map_values(|x: String| x@), target@, false),
                forall|t: int| 0 <= t < stopped@.len() ==> listed_closed(*self, (#[trigger] stopped@[t])@, false),
                forall|t: int| 0 <= t < kills@.len() ==> (#[trigger] kills@[t]).signal == signal_for(mode),
                stopped_at(s0.units@, ps, stopped@),
                kills@ == stop_kills_for(s0.units@, ps, mode),
            decreases to_stop@.len() - k,
        {
            let (u, i) = to_stop[k];
            assert(follows(s0, u as int, i as int, target@, false));
            let ghost b0 = self.units@;
            let ghost sb0 = *self;
            let (id, name) = self.comp_id_at(u, i);
            assert(self.units@[u as int].key == s0.units@[u as int].key);
            let ghost cur = svc_list(self.units@[u as int].value)[i as int];
            let mut svc = self.swap_service(u, i, placeholder_service());
            let mut ks = stop_service(&mut svc, mode);
            let ghost marked = svc;
            self.swap_service(u, i, svc);
            proof {
                assert(svc_list(self.units@[u as int].value) =~= svc_list(b0[u as int].value).update(i as int, marked));
                assert(stop_result(cur, marked));
                assert(evolved(b0, self.units@, false)) by {
                    assert forall|v: int, j: int| 0 <= v < b0.len() && 0 <= j < svc_list(b0[v].value).len() implies step_ok(
                        svc_list(b0[v].value)[j],
                        #[trigger] svc_list(self.units@[v].value)[j],
                        false,
                    ) by {
                        if v == u && j == i {
                        } else if v == u {
                            assert(svc_list(self.units@[v].value)[j] == svc_list(b0[v].value)[j]);
                        }
                    }
                }
                lemma_evolved_trans(s0.units@, b0, self.units@, false);
                if k == 0 {
                    assert(stoppable(cur.state));
                }
            }
            let ghost kv0 = kills@;
            let ghost ksv = ks@;
            proof {
                assert forall|t: int| 0 <= t < ksv.len() implies (#[trigger] ksv[t]).signal == signal_for(mode) by {
                    let head = match cur.pid {
                        Some(p) => seq![KillRequest { pid: p, signal: signal_for(mode) }],
                        None => Seq::empty(),
                    };
                    lemma_branch_kills_signal(cur.branch_instances@, signal_for(mode));
                    if t >= head.len() {
                        assert(ksv[t] == branch_kills(cur.branch_instances@, signal_for(mode))[t - head.len()]);
                    }
                }
            }
            kills.append(&mut ks);
            let ghost x0 = svc_list(s0.units@[u as int].value)[i as int];
            proof {
                assert(ksv == stop_kills(cur, mode));
                assert(step_ok(x0, cur, false));
                lemma_stop_kills_step(x0, cur, mode);
                let ps1 = ps.push((u, i));
                assert(ps1.drop_last() =~= ps);
                assert(ps1.last() == (u, i));
                assert(kills@ =~= kv0 + ksv);
                assert(kills@ == stop_kills_for(s0.units@, ps1, mode));
            }
            let ghost st0 = stopped@.map_values(|x: String| x@);
            let ghost sd0 = stopped@;
            proof {
                assert forall|t: int| 0 <= t < sd0.len() implies listed_closed(*self, (#[trigger] sd0[t])@, false) by {
                    lemma_closed_kept(sb0, *self, sd0[t]@, false);
                }
                assert(!stoppable(svc_list(self.units@[u as int].value)[i as int].state));
                assert(comp_id(self.units@, u as int, i as int) == comp_id(s0.units@, u as int, i as int));
            }
            stopped.push(id);
            assert(stopped@.map_values(|x: String| x@) =~= st0.push(comp_id(s0.units@, u as int, i as int)));
            let ghost b1 = self.units@;
            let ghost sb1 = *self;
            let ghost sd1 = stopped@;
            let (more, mut more_kills) = self.stop_dependents(name.as_str(), mode);
            proof {
                lemma_evolved_trans(s0.units@, b1, self.units@, false);
            }
            let ghost kv1 = kills@;
            let ghost mkv = more_kills@;
            kills.append(&mut more_kills);
            let ghost st1 = stopped@.map_values(|x: String| x@);
            let mut more = more;
            let ghost mv = more@.map_values(|x: String| x@);
            let ghost mr = more@;
            stopped.append(&mut more);
            proof {
                assert(stopped@ =~= sd1 + mr);
                assert(svc_list(b1[u as int].value)[i as int].name@ == name@);
                assert(listed_closed(*self, id@, false)) by {
                    let y = svc_list(self.units@[u as int].value)[i as int];
                    assert(step_ok(svc_list(b1[u as int].value)[i as int], y, false));
                    assert(y.name@ == name@);
                    assert(comp_id(self.units@, u as int, i as int) == comp_id(s0.units@, u as int, i as int));
                }
                assert forall|t: int| 0 <= t < stopped@.len() implies listed_closed(*self, (#[trigger] stopped@[t])@, false) by {
                    if t < sd1.len() {
                        assert(stopped@[t] == sd1[t]);
                        if t < sd0.len() {
                            assert(sd1[t] == sd0[t]);
                            assert(listed_closed(sb1, sd1[t]@, false));
                            lemma_closed_kept(sb1, *self, sd1[t]@, false);
                        } else {
                            assert(sd1[t] == id);
                        }
                    } else {
                        assert(stopped@[t] == mr[t - sd1.len()]);
                    }
                }
                assert(kv1 =~= kv0 + ksv);
                assert(stopped@ =~= sd0.push(id) + mr);
                assert(kills@ =~= kv1 + mkv);
                assert(st0.push(comp_id(s0.units@, u as int, i as int))[sd0.len() as int] == id@);
                let psn = lemma_stop_step(s0.units@, b1, ps, u, i, sd0, id, mr, kv1, mkv, mode);
                ps = psn;
                assert forall|t: int| 0 <= t < kills@.len() implies (#[trigger] kills@[t]).signal == signal_for(mode) by {
                    if t < kv0.len() {
                        assert(kills@[t] == kv0[t]);
                    } else if t < kv1.len() {
                        assert(kills@[t] == ksv[t - kv0.len()]);
                    } else {
                        assert(kills@[t] == mkv[t - kv1.len()]);
                    }
                }
                assert(stopped@.map_values(|x: String| x@) =~= st1 + mv);
                assert forall|q: int| 0 <= q < k + 1 implies !stoppable(svc_list(self.units@[(#[trigger] to_stop@[q]).0 as int].value)[to_stop@[q].1 as int].state) by {
                    let (v, j) = to_stop@[q];
                    assert(follows(s0, v as int, j as int, target@, false));
                    if q < k {
                        assert(!stoppable(svc_list(b0[v as int].value)[j as int].state));
                    }
                    assert(!stoppable(svc_list(b1[v as int].value)[j as int].state));
                    assert(step_ok(svc_list(b1[v as int].value)[j as int], svc_list(self.units@[v as int].value)[j as int], false));
                }
                let sv = stopped@.map_values(|x: String| x@);
                assert(sv.subrange(0, st0.len() as int) =~= st0);
                assert(sv.subrange(0, st1.len() as int) =~= st1);
                assert(step_ok(svc_list(s0.units@[u as int].value)[i as int], svc_list(b0[u as int].value)[i as int], false));
                assert(svc_list(s0.units@[u as int].value)[i as int].name@ == name@);
                assert forall|v: int, j: int|
                    0 <= v < s0.units@.len() && 0 <= j < svc_list(s0.units@[v].value).len()
                        && #[trigger] svc_list(self.units@[v].value)[j] != svc_list(s0.units@[v].value)[j]
                        implies exists|t: int|
                            0 <= t < sv.len() && sv[t] == comp_id(s0.units@, v, j) && #[trigger] reached(s0, v, j, target@, sv, t, false) by {
                    if svc_list(b0[v].value)[j] != svc_list(s0.units@[v].value)[j] {
                        let t = choose|t: int|
                            0 <= t < st0.len() && st0[t] == comp_id(s0.units@, v, j) && #[trigger] reached(s0, v, j, target@, st0, t, false);
                        lemma_reached_extend(s0, v, j, target@, st0, sv, t, false);
                        assert(sv[t] == st0[t]);
                    } else if svc_list(b1[v].value)[j] != svc_list(b0[v].value)[j] {
                        assert(v == u && j == i);
                        assert(sv[st0.len() as int] == comp_id(s0.units@, v, j));
                        assert(reached(s0, v, j, target@, sv, st0.len() as int, false));
                    } else {
                        assert(svc_list(self.units@[v].value)[j] != svc_list(b1[v].value)[j]);
                        assert(b1[v].key == s0.units@[v].key);
                        assert(svc_list(b1[v].value)[j].name == svc_list(s0.units@[v].value)[j].name);
                        assert(comp_id(b1, v, j) == comp_id(s0.units@, v, j));
                        let t = choose|t: int|
                            0 <= t < mv.len() && mv[t] == comp_id(sb1.units@, v, j) && #[trigger] reached(sb1, v, j, name@, mv, t, false);
                        assert(st1[st0.len() as int] == comp_id(s0.units@, u as int, i as int));
                        lemma_reached_lift(s0, sb1, u as int, i as int, v, j, name@, target@, st1, mv, t, st0.len() as int, false);
                        assert(sv =~= st1 + mv);
                        assert(sv[st1.len() + t] == mv[t]);
                    }
                }
            }
            k = k + 1;
        }
        proof {
            assert forall|u: int, i: int| !#[trigger] follows(*self, u, i, target@, false) by {
                if follows(*self, u, i, target@, false) {
                    let x = svc_list(s0.units@[u].value)[i];
                    let y = svc_list(self.units@[u].value)[i];
                    assert(step_ok(x, y, false));
                    assert(y == x);
                    assert(follows(s0, u, i, target@, false));
                    assert(has_pos(to_stop@, u, i));
                    let q = choose|q: int| 0 <= q < to_stop@.len() && to_stop@[q].0 == u && to_stop@[q].1 == i;
                    assert(!stoppable(svc_list(self.units@[(to_stop@[q]).0 as int].value)[to_stop@[q].1 as int].state));
                }
            }
            assert forall|u: int, i: int|
                0 <= u < s0.units@.len() && 0 <= i < svc_list(s0.units@[u].value).len()
                    && waits_for(svc_list(s0.units@[u].value)[i], target@)
                    && (svc_list(s0.units@[u].value)[i].state is Active || svc_list(s0.units@[u].value)[i].state is Starting)
                    implies ((#[trigger] svc_list(self.units@[u].value)[i]).state == ServiceState::Stopping
                        || svc_list(self.units@[u].value)[i].state == ServiceState::Inactive) by {
                let x = svc_list(s0.units@[u].value)[i];
                let y = svc_list(self.units@[u].value)[i];
                law_idle_dependent_follows(s0, u, i, target@);
                assert(step_ok(x, y, false));
                if y == x {
                    assert(follows(*self, u, i, target@, false));
                } else {
                    assert(stop_result(x, y));
                }
            }
        }
        (stopped, kills)
    }
}

pub proof fn lemma_branch_kills_signal(bs: Seq<crate::services::BranchServiceInstance>, sig: crate::services::StopSignal)
    ensures
        forall|t: int| 0 <= t < branch_kills(bs, sig).len() ==> (#[trigger] branch_kills(bs, sig)[t]).signal == sig,
    decreases bs.len(),
{
    if bs.len() > 0 {
        lemma_branch_kills_signal(bs.drop_last(), sig);
    }
}

/// A branch instance to spawn: service `service` of the unit at `unit`, for `key`.
pub struct BranchSpawn {
    pub unit: usize,
    pub service: usize,
    pub key: String,
}

/// The position of the service a spawn is for.
pub open spec fn spawn_pos(e: BranchSpawn) -> (usize, usize) {
    (e.unit, e.service)
}

/// The position of the service a limit report is for.
pub open spec fn limited_pos(e: (usize, usize, usize)) -> (usize, usize) {
    (e.0, e.1)
}

/// What the supervisor is to do for the branching services: the instances to
/// spawn, the services at their instance limit (with the limit), and the
/// signals to send.
pub struct BranchPlan {
    pub spawn: Vec<BranchSpawn>,
    pub limited: Vec<(usize, usize, usize)>,
    pub kills: Vec<KillRequest>,
}

/// The branch key the payload of `state` gives the service.
pub open spec fn key_for(svc: Service, state: FlowInstance) -> Option<Seq<char>> {
    branch_key_of(
        state.payload,
        match svc.branching {
            Some(b) => match b.key {
                Some(k) => Some(k@),
                None => None,
            },
            None => None,
        },
    )
}

/// Whether applying `state` asks for a new branch instance of the service.
pub open spec fn spawns(x: Service, state: FlowInstance) -> bool {
    match key_for(x, state) {
        Some(k) => branch_start_spec(x, k) == BranchStart::Spawn,
        None => false,
    }
}

/// The signals that reverting a state sends to the branch instances of a
/// service: to the instance of the key, or to every running one without a key.
pub open spec fn revert_kills(x: Service, key: Option<Seq<char>>) -> Seq<KillRequest> {
    match key {
        Some(k) => match first_branch(x.branch_instances@, k) {
            Some(j) => match x.branch_instances@[j].pid {
                Some(p) => seq![KillRequest { pid: p, signal: StopSignal::Term }],
                None => Seq::empty(),
            },
            None => Seq::empty(),
        },
        None => branch_kills(x.branch_instances@, StopSignal::Term),
    }
}

/// The signals that reverting `state` sends to the services at `ts`, in order.
pub open spec fn kills_for(s: Store, ts: Seq<(usize, usize)>, state: FlowInstance) -> Seq<KillRequest>
    decreases ts.len(),
{
    if ts.len() == 0 {
        Seq::empty()
    } else {
        let x = svc_list(s.units@[ts.last().0 as int].value)[ts.last().1 as int];
        kills_for(s, ts.drop_last(), state) + revert_kills(x, key_for(x, state))
    }
}

/// Whether applying `state` finds the service at its instance limit.
pub open spec fn limits(x: Service, state: FlowInstance) -> bool {
    match key_for(x, state) {
        Some(k) => branch_start_spec(x, k) is LimitReached,
        None => false,
    }
}

/// Whether applying `state` finds the service at its instance limit `m`.
pub open spec fn at_limit(x: Service, state: FlowInstance, m: usize) -> bool {
    match key_for(x, state) {
        Some(k) => branch_start_spec(x, k) == (BranchStart::LimitReached { max: m }),
        None => false,
    }
}

/// A service after its branches are reverted for `key`: the instance with the
/// key is `Stopping`; without a key, every instance is.
pub open spec fn reverted(x: Service, y: Service, key: Option<Seq<char>>) -> bool {
    &&& y == (Service { branch_instances: y.branch_instances, ..x })
    &&& match key {
        Some(k) => match first_branch(x.branch_instances@, k) {
            Some(j) => y.branch_instances@ == x.branch_instances@.update(
                j,
                BranchServiceInstance { state: ServiceState::Stopping, ..x.branch_instances@[j] },
            ),
            None => y.branch_instances@ == x.branch_instances@,
        },
        None => {
            &&& y.branch_instances@.len() == x.branch_instances@.len()
            &&& forall|j: int|
                0 <= j < x.branch_instances@.len() ==> #[trigger] y.branch_instances@[j] == (BranchServiceInstance {
                    state: ServiceState::Stopping,
                    ..x.branch_instances@[j]
                })
        },
    }
}

/// The units `b` are the units `a` with only services changed, one for one.
pub open spec fn same_shape(a: Seq<Keyed<Unit>>, b: Seq<Keyed<Unit>>) -> bool {
    &&& a.len() == b.len()
    &&& forall|u: int| 0 <= u < a.len() ==> (#[trigger] b[u]).key == a[u].key
    &&& forall|u: int| 0 <= u < a.len() ==> (#[trigger] b[u]).value == (Unit { service: b[u].value.service, ..a[u].value })
    &&& forall|u: int| 0 <= u < a.len() ==> ((#[trigger] b[u]).value.service is Some <==> a[u].value.service is Some)
    &&& forall|u: int| 0 <= u < a.len() ==> svc_list((#[trigger] b[u]).value).len() == svc_list(a[u].value).len()
}

impl Store {
    /// The branching services follow a state (see `branches_with`): when it is
    /// applied, an instance is to be spawned for the branch key of its payload
    /// where `branch_start` says so; when it is reverted, the instance of that
    /// key (or, with no key, every instance) is stopped. The spawns and the
    /// limit reports come in the order of the services, each service at most once.
    pub fn reconcile_state_branching(&mut self, state: &FlowInstance, mode: FlowChangeAction) -> (plan: BranchPlan)
        requires
            old(self).wf(),
        ensures
            final(self).wf(),
            final(self).enabled == old(self).enabled,
            final(self).states == old(self).states,
            same_shape(old(self).units@, final(self).units@),
            forall|u: int, i: int|
                0 <= u < old(self).units@.len() && 0 <= i < svc_list(old(self).units@[u].value).len() ==> {
                    let x = svc_list(old(self).units@[u].value)[i];
                    let y = #[trigger] svc_list(final(self).units@[u].value)[i];
                    if mode == FlowChangeAction::Revert && branches_with(*old(self), u, i, state.name@) {
                        reverted(x, y, key_for(x, *state))
                    } else {
                        y == x
                    }
                },
            mode == FlowChangeAction::Revert ==> plan.spawn@.len() == 0 && plan.limited@.len() == 0,
            forall|t: int| 0 <= t < plan.kills@.len() ==> (#[trigger] plan.kills@[t]).signal == StopSignal::Term,
            mode == FlowChangeAction::Apply ==> plan.kills@.len() == 0,
            mode == FlowChangeAction::Revert ==> exists|ts: Seq<(usize, usize)>|
                #![trigger kills_for(*old(self), ts, *state)]
                {
                    &&& forall|q: int| 0 <= q < ts.len() ==> branches_with(*old(self), (#[trigger] ts[q]).0 as int, ts[q].1 as int, state.name@)
                    &&& forall|a: int, b: int| 0 <= a < b < ts.len() ==> before(#[trigger] ts[a], #[trigger] ts[b])
                    &&& forall|u: int, i: int| #[trigger] branches_with(*old(self), u, i, state.name@) ==> has_pos(ts, u, i)
                    &&& plan.kills@ == kills_for(*old(self), ts, *state)
                },
            mode == FlowChangeAction::Apply ==> forall|t: int|
                0 <= t < plan.spawn@.len() ==> {
                    let e = #[trigger] plan.spawn@[t];
                    let x = svc_list(old(self).units@[e.unit as int].value)[e.service as int];
                    &&& branches_with(*old(self), e.unit as int, e.service as int, state.name@)
                    &&& key_for(x, *state) == Some(e.key@)
                    &&& branch_start_spec(x, e.key@) == BranchStart::Spawn
                },
            mode == FlowChangeAction::Apply ==> forall|u: int, i: int|
                #[trigger] branches_with(*old(self), u, i, state.name@) && spawns(svc_list(old(self).units@[u].value)[i], *state)
                    ==> exists|t: int| 0 <= t < plan.spawn@.len() && plan.spawn@[t].unit == u && plan.spawn@[t].service == i,
            mode == FlowChangeAction::Apply ==> forall|t: int|
                0 <= t < plan.limited@.len() ==> {
                    let (u, i, m) = #[trigger] plan.limited@[t];
                    let x = svc_list(old(self).units@[u as int].value)[i as int];
                    &&& branches_with(*old(self), u as int, i as int, state.name@)
                    &&& at_limit(x, *state, m)
                },
            mode == FlowChangeAction::Apply ==> forall|u: int, i: int|
                #[trigger] branches_with(*old(self), u, i, state.name@) && limits(svc_list(old(self).units@[u].value)[i], *state)
                    ==> exists|t: int| 0 <= t < plan.limited@.len() && plan.limited@[t].0 == u && plan.limited@[t].1 == i,
            forall|a: int, b: int|
                0 <= a < b < plan.spawn@.len() ==> before(spawn_pos(#[trigger] plan.spawn@[a]), spawn_pos(#[trigger] plan.spawn@[b])),
            forall|a: int, b: int|
                0 <= a < b < plan.limited@.len() ==> before(limited_pos(#[trigger] plan.limited@[a]), limited_pos(#[trigger] plan.limited@[b])),
    {
        let ghost s0 = *self;
        let sel = Selector::Branching { state: state.name.as_str() };
        let targets = self.select(&sel);
        assert(forall|u: int, i: int|
            #![trigger selected(s0, u, i, sel)]
            #![trigger branches_with(s0, u, i, state.name@)]
            selected(s0, u, i, sel) == branches_with(s0, u, i, state.name@));
        let mut spawn: Vec<BranchSpawn> = Vec::new();
        let mut limited: Vec<(usize, usize, usize)> = Vec::new();
        let mut kills: Vec<KillRequest> = Vec::new();
        let mut k: usize = 0;
        while k < targets.len()
            invariant
                self.wf(),
                s0.wf(),
                s0 == *old(self),
                self.enabled == s0.enabled,
                self.states == s0.states,
                same_shape(s0.units@, self.units@),
                k <= targets@.len(),
                forall|q: int| 0 <= q < targets@.len() ==> branches_with(s0, (#[trigger] targets@[q]).0 as int, targets@[q].1 as int, state.name@),
                forall|u: int, i: int| #[trigger] branches_with(s0, u, i, state.name@) ==> has_pos(targets@, u, i),
                forall|a: int, b: int| 0 <= a < b < targets@.len() ==> before(#[trigger] targets@[a], #[trigger] targets@[b]),
                forall|u: int, i: int|
                    0 <= u < s0.units@.len() && 0 <= i < svc_list(s0.units@[u].value).len() ==> {
                        let x = svc_list(s0.units@[u].value)[i];
                        let y = #[trigger] svc_list(self.units@[u].value)[i];
                        if mode == FlowChangeAction::Revert && has_pos(targets@.subrange(0, k as int), u, i) {
                            reverted(x, y, key_for(x, *state))
                        } else {
                            y == x
                        }
                    },
                mode == FlowChangeAction::Revert ==> spawn@.len() == 0 && limited@.len() == 0,
                forall|t: int| 0 <= t < kills@.len() ==> (#[trigger] kills@[t]).signal == StopSignal::Term,
                mode == FlowChangeAction::Apply ==> kills@.len() == 0,
                mode == FlowChangeAction::Revert ==> kills@ == kills_for(s0, targets@.subrange(0, k as int), *state),
                mode == FlowChangeAction::Apply ==> forall|t: int|
                    0 <= t < spawn@.len() ==> {
                        let e = #[trigger] spawn@[t];
                        let x = svc_list(s0.units@[e.unit as int].value)[e.service as int];
                        &&& branches_with(s0, e.unit as int, e.service as int, state.name@)
                        &&& key_for(x, *state) == Some(e.key@)
                        &&& branch_start_spec(x, e.key@) == BranchStart::Spawn
                    },
                mode == FlowChangeAction::Apply ==> forall|u: int, i: int|
                    #[trigger] branches_with(s0, u, i, state.name@) && spawns(svc_list(s0.units@[u].value)[i], *state)
                        && has_pos(targets@.subrange(0, k as int), u, i)
                        ==> exists|t: int| 0 <= t < spawn@.len() && spawn@[t].unit == u && spawn@[t].service == i,
                mode == FlowChangeAction::Apply ==> forall|t: int|
                    0 <= t < limited@.len() ==> {
                        let (u, i, m) = #[trigger] limited@[t];
                        let x = svc_list(s0.units@[u as int].value)[i as int];
                        &&& branches_with(s0, u as int, i as int, state.name@)
                        &&& at_limit(x, *state, m)
                    },
                mode == FlowChangeAction::Apply ==> forall|u: int, i: int|
                    #[trigger] branches_with(s0, u, i, state.name@) && limits(svc_list(s0.units@[u].value)[i], *state)
                        && has_pos(targets@.subrange(0, k as int), u, i)
                        ==> exists|t: int| 0 <= t < limited@.len() && limited@[t].0 == u && limited@[t].1 == i,
                forall|t: int| 0 <= t < spawn@.len() ==> has_pos(targets@.subrange(0, k as int), (#[trigger] spawn@[t]).unit as int, spawn@[t].service as int),
                forall|t: int| 0 <= t < limited@.len() ==> has_pos(targets@.subrange(0, k as int), (#[trigger] limited@[t]).0 as int, limited@[t].1 as int),
                forall|a: int, b: int|
                    0 <= a < b < spawn@.len() ==> before(spawn_pos(#[trigger] spawn@[a]), spawn_pos(#[trigger] spawn@[b])),
                forall|a: int, b: int|
                    0 <= a < b < limited@.len() ==> before(limited_pos(#[trigger] limited@[a]), limited_pos(#[trigger] limited@[b])),
            decreases targets@.len() - k,
        {
            let (u, i) = targets[k];
            assert(branches_with(s0, u as int, i as int, state.name@));
            let ghost x = svc_list(s0.units@[u as int].value)[i as int];
            assert(svc_list(self.units@[u as int].value)[i as int] == x) by {
                if has_pos(targets@.subrange(0, k as int), u as int, i as int) {
                    let q = choose|q: int| 0 <= q < k && targets@.subrange(0, k as int)[q].0 == u && targets@.subrange(0, k as int)[q].1 == i;
                    assert(before(targets@[q], targets@[k as int]));
                }
            }
            let ghost b0 = self.units@;
            let ghost sp0 = spawn@;
            let ghost lm0 = limited@;
            let key = {
                let svc = match &self.units[u].value.service {
                    Some(v) => &v[i],
                    None => {
                        assert(false);
                        return BranchPlan { spawn, limited, kills };
                    },
                };
                let cfg_key: Option<&str> = match &svc.branching {
                    Some(b) => match &b.key {
                        Some(kk) => Some(kk.as_str()),
                        None => None,
                    },
                    None => None,
                };
                payload_branch_key(&state.payload, cfg_key)
            };
            assert(key_for(x, *state) == match key { Some(kk) => Some(kk@), None => None::<Seq<char>> });
            if mode == FlowChangeAction::Revert {
                let mut svc = self.swap_service(u, i, placeholder_service());
                let ghost kv0 = kills@;
                match &key {
                    Some(kk) => {
                        match stop_branch_instance(&mut svc, kk.as_str(), false) {
                            Some(kr) => {
                                kills.push(kr);
                            },
                            None => {},
                        }
                    },
                    None => {
                        let mut ks = stop_all_branches(&mut svc);
                        proof {
                            lemma_branch_kills_signal(x.branch_instances@, StopSignal::Term);
                        }
                        kills.append(&mut ks);
                        proof {
                            assert forall|t: int| 0 <= t < kills@.len() implies (#[trigger] kills@[t]).signal == StopSignal::Term by {
                                if t >= kv0.len() {
                                    assert(kills@[t] == branch_kills(x.branch_instances@, StopSignal::Term)[t - kv0.len()]);
                                }
                            }
                        }
                    },
                }
                let ghost y = svc;
                self.swap_service(u, i, svc);
                proof {
                    let sub1 = targets@.subrange(0, k + 1);
                    assert(sub1.drop_last() =~= targets@.subrange(0, k as int));
                    assert(sub1.last() == targets@[k as int]);
                    assert(kills@ =~= kv0 + revert_kills(x, key_for(x, *state)));
                    assert(kills@ == kills_for(s0, sub1, *state));
                    assert(reverted(x, y, key_for(x, *state)));
                    assert(svc_list(self.units@[u as int].value) =~= svc_list(b0[u as int].value).update(i as int, y));
                }
            } else {
                match &key {
                    Some(kk) => {
                        let svc = match &self.units[u].value.service {
                            Some(v) => &v[i],
                            None => {
                                assert(false);
                                return BranchPlan { spawn, limited, kills };
                            },
                        };
                        match branch_start(svc, kk.as_str()) {
                            BranchStart::Spawn => {
                                spawn.push(BranchSpawn { unit: u, service: i, key: kk.clone() });
                            },
                            BranchStart::LimitReached { max } => {
                                limited.push((u, i, max));
                            },
                            BranchStart::Exists => {},
                        }
                    },
                    None => {},
                }
            }
            proof {
                assert forall|v: int, j: int|
                    0 <= v < s0.units@.len() && 0 <= j < svc_list(s0.units@[v].value).len() implies {
                        let xx = svc_list(s0.units@[v].value)[j];
                        let yy = #[trigger] svc_list(self.units@[v].value)[j];
                        if mode == FlowChangeAction::Revert && has_pos(targets@.subrange(0, k + 1), v, j) {
                            reverted(xx, yy, key_for(xx, *state))
                        } else {
                            yy == xx
                        }
                    } by {
                    let sub0 = targets@.subrange(0, k as int);
                    let sub1 = targets@.subrange(0, k + 1);
                    if has_pos(sub1, v, j) && !(v == u && j == i) {
                        let q = choose|q: int| 0 <= q < sub1.len() && sub1[q].0 == v && sub1[q].1 == j;
                        assert(sub0[q] == sub1[q]);
                        assert(has_pos(sub0, v, j));
                    }
                    if has_pos(sub0, v, j) {
                        let q = choose|q: int| 0 <= q < sub0.len() && sub0[q].0 == v && sub0[q].1 == j;
                        assert(sub1[q] == sub0[q]);
                        assert(has_pos(sub1, v, j));
                        assert(before(targets@[q], targets@[k as int]));
                    }
                    if v == u && j == i {
                        assert(sub1[k as int] == targets@[k as int]);
                        assert(has_pos(sub1, v, j));
                    }
                }
                let sub0 = targets@.subrange(0, k as int);
                let sub1 = targets@.subrange(0, k + 1);
                assert(sub1[k as int] == targets@[k as int]);
                assert forall|t: int| 0 <= t < spawn@.len() implies has_pos(sub1, (#[trigger] spawn@[t]).unit as int, spawn@[t].service as int) by {
                    if t < sp0.len() {
                        assert(spawn@[t] == sp0[t]);
                        let q = choose|q: int| 0 <= q < sub0.len() && sub0[q].0 == sp0[t].unit && sub0[q].1 == sp0[t].service;
                        assert(sub1[q] == sub0[q]);
                    }
                }
                assert forall|t: int| 0 <= t < limited@.len() implies has_pos(sub1, (#[trigger] limited@[t]).0 as int, limited@[t].1 as int) by {
                    if t < lm0.len() {
                        assert(limited@[t] == lm0[t]);
                        let q = choose|q: int| 0 <= q < sub0.len() && sub0[q].0 == lm0[t].0 && sub0[q].1 == lm0[t].1;
                        assert(sub1[q] == sub0[q]);
                    }
                }
                assert forall|a: int, b: int|
                    0 <= a < b < spawn@.len() implies before(spawn_pos(#[trigger] spawn@[a]), spawn_pos(#[trigger] spawn@[b])) by {
                    assert(spawn@[a] == sp0[a]);
                    if b >= sp0.len() {
                        let q = choose|q: int| 0 <= q < sub0.len() && sub0[q].0 == sp0[a].unit && sub0[q].1 == sp0[a].service;
                        assert(before(targets@[q], targets@[k as int]));
                    } else {
                        assert(spawn@[b] == sp0[b]);
                    }
                }
                assert forall|a: int, b: int|
                    0 <= a < b < limited@.len() implies before(limited_pos(#[trigger] limited@[a]), limited_pos(#[trigger] limited@[b])) by {
                    assert(limited@[a] == lm0[a]);
                    if b >= lm0.len() {
                        let q = choose|q: int| 0 <= q < sub0.len() && sub0[q].0 == lm0[a].0 && sub0[q].1 == lm0[a].1;
                        assert(before(targets@[q], targets@[k as int]));
                    } else {
                        assert(limited@[b] == lm0[b]);
                    }
                }
                assert forall|v: int, j: int|
                    #[trigger] branches_with(s0, v, j, state.name@) && spawns(svc_list(s0.units@[v].value)[j], *state)
                        && has_pos(targets@.subrange(0, k + 1), v, j) && mode == FlowChangeAction::Apply
                        implies exists|t: int| 0 <= t < spawn@.len() && spawn@[t].unit == v && spawn@[t].service == j by {
                    let sub0 = targets@.subrange(0, k as int);
                    let sub1 = targets@.subrange(0, k + 1);
                    let q = choose|q: int| 0 <= q < sub1.len() && sub1[q].0 == v && sub1[q].1 == j;
                    assert(spawn@.subrange(0, sp0.len() as int) =~= sp0);
                    if q < k {
                        assert(sub0[q] == sub1[q]);
                        assert(has_pos(sub0, v, j));
                        let t = choose|t: int| 0 <= t < sp0.len() && sp0[t].unit == v && sp0[t].service == j;
                        assert(spawn@[t] == sp0[t]);
                    } else {
                        assert(v == u && j == i);
                        assert(spawn@.len() == sp0.len() + 1);
                        assert(spawn@[sp0.len() as int].unit == v);
                    }
                }
                assert forall|v: int, j: int|
                    #[trigger] branches_with(s0, v, j, state.name@) && limits(svc_list(s0.units@[v].value)[j], *state)
                        && has_pos(targets@.subrange(0, k + 1), v, j) && mode == FlowChangeAction::Apply
                        implies exists|t: int| 0 <= t < limited@.len() && limited@[t].0 == v && limited@[t].1 == j by {
                    let sub0 = targets@.subrange(0, k as int);
                    let sub1 = targets@.subrange(0, k + 1);
                    let q = choose|q: int| 0 <= q < sub1.len() && sub1[q].0 == v && sub1[q].1 == j;
                    assert(limited@.subrange(0, lm0.len() as int) =~= lm0);
                    if q < k {
                        assert(sub0[q] == sub1[q]);
                        assert(has_pos(sub0, v, j));
                        let t = choose|t: int| 0 <= t < lm0.len() && lm0[t].0 == v && lm0[t].1 == j;
                        assert(limited@[t] == lm0[t]);
                    } else {
                        assert(v == u && j == i);
                        assert(limited@.len() == lm0.len() + 1);
                        assert(limited@[lm0.len() as int].0 == v);
                    }
                }
            }
            k = k + 1;
        }
        proof {
            assert(targets@.subrange(0, targets@.len() as int) =~= targets@);
            assert forall|u: int, i: int| #[trigger] branches_with(s0, u, i, state.name@) implies has_pos(targets@.subrange(0, k as int), u, i) by {
                assert(has_pos(targets@, u, i));
            }
            if mode == FlowChangeAction::Revert {
                assert(kills@ == kills_for(s0, targets@, *state));
            }
        }
        BranchPlan { spawn, limited, kills }
    }
}

/// A service with no name, command, process or instances, inactive: what
/// stands in a unit's list while the service there is taken out and changed.
fn placeholder_service() -> (r: Service)
    ensures
        r.id == crate::services::ServiceId(0),
        r.unit@.len() == 0,
        r.name@.len() == 0,
        r.executable@.len() == 0,
        r.args@.len() == 0,
        r.env is None,
        r.after is None,
        r.start_on is None,
        r.stop_on is None,
        r.on_start is None,
        r.on_stop is None,
        r.transport is None,
        r.branching is None,
        r.restart == crate::services::RestartPolicy::Bool(false),
        r.pid is None,
        r.state == ServiceState::Inactive,
        r.retry_count == 0,
        !r.manually_stopped,
        r.branch_instances@.len() == 0,
{
    Service {
        id: crate::services::ServiceId(0),
        unit: crate::name::Name::empty(),
        name: String::new(),
        executable: String::new(),
        args: Vec::new(),
        env: None,
        after: None,
        start_on: None,
        stop_on: None,
        on_start: None,
        on_stop: None,
        transport: None,
        branching: None,
        restart: crate::services::RestartPolicy::Bool(false),
        pid: None,
        state: ServiceState::Inactive,
        retry_count: 0,
        manually_stopped: false,
        branch_instances: Vec::new(),
    }
}

/// The state a stop leaves a service in.
pub open spec fn stop_state(x: Service) -> ServiceState {
    if x.pid is Some {
        ServiceState::Stopping
    } else {
        ServiceState::Inactive
    }
}

/// A service stopped and then marked `Starting`.
pub open spec fn restarted(x: Service, y: Service) -> bool {
    y.state == ServiceState::Starting && stop_result(x, Service { state: stop_state(x), ..y })
}

/// The signals that stopping a service with `mode` sends: the service's own,
/// then those of its running branch instances.
pub open spec fn stop_kills(x: Service, mode: StopMode) -> Seq<KillRequest> {
    let head = match x.pid {
        Some(p) => seq![KillRequest { pid: p, signal: signal_for(mode) }],
        None => Seq::empty(),
    };
    head + branch_kills(x.branch_instances@, signal_for(mode))
}

/// The signals that stopping the services at `ts` with `mode` sends, in order.
pub open spec fn stop_kills_for(units: Seq<Keyed<Unit>>, ts: Seq<(usize, usize)>, mode: StopMode) -> Seq<KillRequest>
    decreases ts.len(),
{
    if ts.len() == 0 {
        Seq::empty()
    } else {
        stop_kills_for(units, ts.drop_last(), mode) + stop_kills(
            svc_list(units[ts.last().0 as int].value)[ts.last().1 as int],
            mode,
        )
    }
}

proof fn lemma_branch_kills_pids(a: Seq<BranchServiceInstance>, b: Seq<BranchServiceInstance>, sig: StopSignal)
    requires
        a.len() == b.len(),
        forall|j: int| 0 <= j < a.len() ==> (#[trigger] a[j]).pid == b[j].pid,
    ensures
        branch_kills(a, sig) == branch_kills(b, sig),
    decreases a.len(),
{
    if a.len() > 0 {
        assert(a.last().pid == b.last().pid);
        lemma_branch_kills_pids(a.drop_last(), b.drop_last(), sig);
    }
}

proof fn lemma_stop_kills_step(x: Service, y: Service, mode: StopMode)
    requires
        step_ok(x, y, false),
    ensures
        stop_kills(x, mode) == stop_kills(y, mode),
{
    if y != x {
        assert(stop_result(x, y));
        assert forall|j: int| 0 <= j < x.branch_instances@.len() implies (#[trigger] x.branch_instances@[j]).pid == y.branch_instances@[j].pid by {
            assert(branch_stopped(x.branch_instances@[j], y.branch_instances@[j]));
        }
        lemma_branch_kills_pids(x.branch_instances@, y.branch_instances@, signal_for(mode));
    }
}

/// The positions `ts` are positions of services of the units.
pub open spec fn valid_positions(units: Seq<Keyed<Unit>>, ts: Seq<(usize, usize)>) -> bool {
    forall|t: int| 0 <= t < ts.len() ==> {
        let (u, i) = #[trigger] ts[t];
        0 <= u < units.len() && 0 <= i < svc_list(units[u as int].value).len()
    }
}

proof fn lemma_stop_kills_evolved(a: Seq<Keyed<Unit>>, b: Seq<Keyed<Unit>>, ts: Seq<(usize, usize)>, mode: StopMode)
    requires
        evolved(a, b, false),
        valid_positions(a, ts),
    ensures
        stop_kills_for(a, ts, mode) == stop_kills_for(b, ts, mode),
    decreases ts.len(),
{
    if ts.len() > 0 {
        let (u, i) = ts.last();
        assert(ts[ts.len() - 1] == ts.last());
        lemma_stop_kills_step(svc_list(a[u as int].value)[i as int], svc_list(b[u as int].value)[i as int], mode);
        assert(valid_positions(a, ts.drop_last())) by {
            assert forall|t: int| 0 <= t < ts.drop_last().len() implies {
                let (u, i) = #[trigger] ts.drop_last()[t];
                0 <= u < a.len() && 0 <= i < svc_list(a[u as int].value).len()
            } by {
                assert(ts.drop_last()[t] == ts[t]);
            }
        }
        lemma_stop_kills_evolved(a, b, ts.drop_last(), mode);
    }
}

proof fn lemma_stop_kills_concat(units: Seq<Keyed<Unit>>, x: Seq<(usize, usize)>, y: Seq<(usize, usize)>, mode: StopMode)
    ensures
        stop_kills_for(units, x + y, mode) == stop_kills_for(units, x, mode) + stop_kills_for(units, y, mode),
    decreases y.len(),
{
    if y.len() == 0 {
        assert(x + y =~= x);
        assert(stop_kills_for(units, x, mode) + stop_kills_for(units, y, mode) =~= stop_kills_for(units, x, mode));
    } else {
        assert((x + y).drop_last() =~= x + y.drop_last());
        assert((x + y).last() == y.last());
        lemma_stop_kills_concat(units, x, y.drop_last(), mode);
        let last = stop_kills(svc_list(units[y.last().0 as int].value)[y.last().1 as int], mode);
        assert(stop_kills_for(units, x, mode) + stop_kills_for(units, y.drop_last(), mode) + last
            =~= stop_kills_for(units, x, mode) + (stop_kills_for(units, y.drop_last(), mode) + last));
    }
}

/// The services at `ps` could be stopped (they were active or starting) and
/// bear the full names `names`, in order.
pub open spec fn stopped_at(units: Seq<Keyed<Unit>>, ps: Seq<(usize, usize)>, names: Seq<String>) -> bool {
    &&& ps.len() == names.len()
    &&& valid_positions(units, ps)
    &&& forall|t: int| 0 <= t < ps.len() ==> {
        let (u, i) = ps[t];
        &&& comp_id(units, u as int, i as int) == (#[trigger] names[t])@
        &&& stoppable(svc_list(units[u as int].value)[i as int].state)
    }
}

proof fn lemma_stopped_at_back(a: Seq<Keyed<Unit>>, b: Seq<Keyed<Unit>>, ps: Seq<(usize, usize)>, names: Seq<String>)
    requires
        evolved(a, b, false),
        stopped_at(b, ps, names),
    ensures
        stopped_at(a, ps, names),
{
    assert forall|t: int| 0 <= t < ps.len() implies {
        let (u, i) = ps[t];
        &&& comp_id(a, u as int, i as int) == (#[trigger] names[t])@
        &&& stoppable(svc_list(a[u as int].value)[i as int].state)
    } by {
        let (u, i) = ps[t];
        assert(valid_positions(b, ps));
        assert(0 <= u < b.len() && 0 <= i < svc_list(b[u as int].value).len()) by {
            let p = ps[t];
        }
        let x = svc_list(a[u as int].value)[i as int];
        let y = svc_list(b[u as int].value)[i as int];
        let n = names[t];
        assert(comp_id(b, u as int, i as int) == n@ && stoppable(y.state));
        assert(step_ok(x, y, false));
        if y != x {
            assert(stop_result(x, y));
            assert(!stoppable(y.state));
        }
        assert(comp_id(b, u as int, i as int) == comp_id(a, u as int, i as int));
    }
    assert(valid_positions(a, ps)) by {
        assert forall|t: int| 0 <= t < ps.len() implies {
            let (u, i) = #[trigger] ps[t];
            0 <= u < a.len() && 0 <= i < svc_list(a[u as int].value).len()
        } by {
            let (u, i) = ps[t];
            assert(0 <= u < b.len() && 0 <= i < svc_list(b[u as int].value).len());
        }
    }
}

/// What a flow change asks of the services: those stopped (in order), those
/// to spawn (in order), and the signals to send.
pub struct TriggerOutcome {
    pub stopped: Vec<(usize, usize)>,
    pub started: Vec<(usize, usize)>,
    pub kills: Vec<KillRequest>,
}

impl Store {
    /// The services a flow change acts on (see `triggered`): those to stop,
    /// then those to start, each in table order.
    pub fn trigger_plan(&self, trigger: &FlowInstance, action: FlowChangeAction) -> (r: (Vec<(usize, usize)>, Vec<(usize, usize)>))
        requires
            self.wf(),
        ensures
            forall|k: int| 0 <= k < r.0@.len() ==> triggered(*self, (#[trigger] r.0@[k]).0 as int, r.0@[k].1 as int, *trigger, action, false),
            forall|a: int, b: int| 0 <= a < b < r.0@.len() ==> before(#[trigger] r.0@[a], #[trigger] r.0@[b]),
            forall|u: int, i: int| #[trigger] triggered(*self, u, i, *trigger, action, false) ==> has_pos(r.0@, u, i),
            forall|k: int| 0 <= k < r.1@.len() ==> triggered(*self, (#[trigger] r.1@[k]).0 as int, r.1@[k].1 as int, *trigger, action, true),
            forall|a: int, b: int| 0 <= a < b < r.1@.len() ==> before(#[trigger] r.1@[a], #[trigger] r.1@[b]),
            forall|u: int, i: int| #[trigger] triggered(*self, u, i, *trigger, action, true) ==> has_pos(r.1@, u, i),
    {
        let ss = Selector::Trigger { trigger, action, start: false };
        let stops = self.select(&ss);
        let st = Selector::Trigger { trigger, action, start: true };
        let starts = self.select(&st);
        proof {
            assert(forall|u: int, i: int|
                #![trigger selected(*self, u, i, ss)]
                #![trigger triggered(*self, u, i, *trigger, action, false)]
                selected(*self, u, i, ss) == triggered(*self, u, i, *trigger, action, false));
            assert(forall|u: int, i: int|
                #![trigger selected(*self, u, i, st)]
                #![trigger triggered(*self, u, i, *trigger, action, true)]
                selected(*self, u, i, st) == triggered(*self, u, i, *trigger, action, true));
        }
        (stops, starts)
    }

    /// Acts on a flow change (see `triggered`): the services to stop are
    /// stopped gracefully, then the services to start are marked `Starting`
    /// (the supervisor spawns them). A service may be stopped and started.
    pub fn check_triggers(&mut self, trigger: &FlowInstance, action: FlowChangeAction) -> (r: TriggerOutcome)
        requires
            old(self).wf(),
        ensures
            final(self).wf(),
            final(self).enabled == old(self).enabled,
            final(self).states == old(self).states,
            same_shape(old(self).units@, final(self).units@),
            forall|u: int, i: int|
                0 <= u < old(self).units@.len() && 0 <= i < svc_list(old(self).units@[u].value).len() ==> {
                    let x = svc_list(old(self).units@[u].value)[i];
                    let y = #[trigger] svc_list(final(self).units@[u].value)[i];
                    let stop = triggered(*old(self), u, i, *trigger, action, false);
                    let start = triggered(*old(self), u, i, *trigger, action, true);
                    if start && stop {
                        restarted(x, y)
                    } else if start {
                        y == (Service { state: ServiceState::Starting, ..x })
                    } else if stop {
                        stop_result(x, y)
                    } else {
                        y == x
                    }
                },
            forall|k: int| 0 <= k < r.stopped@.len() ==> triggered(*old(self), (#[trigger] r.stopped@[k]).0 as int, r.stopped@[k].1 as int, *trigger, action, false),
            forall|u: int, i: int| #[trigger] triggered(*old(self), u, i, *trigger, action, false) ==> has_pos(r.stopped@, u, i),
            forall|k: int| 0 <= k < r.started@.len() ==> triggered(*old(self), (#[trigger] r.started@[k]).0 as int, r.started@[k].1 as int, *trigger, action, true),
            forall|u: int, i: int| #[trigger] triggered(*old(self), u, i, *trigger, action, true) ==> has_pos(r.started@, u, i),
            forall|t: int| 0 <= t < r.kills@.len() ==> (#[trigger] r.kills@[t]).signal == crate::services::StopSignal::Term,
            r.kills@ == stop_kills_for(old(self).units@, r.stopped@, StopMode::Graceful),
    {
        let ghost s0 = *self;
        let (stops, starts) = self.trigger_plan(trigger, action);
        let mut kills: Vec<KillRequest> = Vec::new();
        let mut k: usize = 0;
        while k < stops.len()
            invariant
                self.wf(),
                s0.wf(),
                s0 == *old(self),
                self.enabled == s0.enabled,
                self.states == s0.states,
                same_shape(s0.units@, self.units@),
                k <= stops@.len(),
                forall|q: int| 0 <= q < stops@.len() ==> triggered(s0, (#[trigger] stops@[q]).0 as int, stops@[q].1 as int, *trigger, action, false),
                forall|a: int, b: int| 0 <= a < b < stops@.len() ==> before(#[trigger] stops@[a], #[trigger] stops@[b]),
                forall|u: int, i: int|
                    0 <= u < s0.units@.len() && 0 <= i < svc_list(s0.units@[u].value).len() ==> {
                        let x = svc_list(s0.units@[u].value)[i];
                        let y = #[trigger] svc_list(self.units@[u].value)[i];
                        if has_pos(stops@.subrange(0, k as int), u, i) {
                            stop_result(x, y)
                        } else {
                            y == x
                        }
                    },
                forall|t: int| 0 <= t < kills@.len() ==> (#[trigger] kills@[t]).signal == crate::services::StopSignal::Term,
                kills@ == stop_kills_for(s0.units@, stops@.subrange(0, k as int), StopMode::Graceful),
            decreases stops@.len() - k,
        {
            let (u, i) = stops[k];
            assert(triggered(s0, u as int, i as int, *trigger, action, false));
            let ghost x = svc_list(s0.units@[u as int].value)[i as int];
            assert(svc_list(self.units@[u as int].value)[i as int] == x) by {
                if has_pos(stops@.subrange(0, k as int), u as int, i as int) {
                    let q = choose|q: int| 0 <= q < k && stops@.subrange(0, k as int)[q].0 == u && stops@.subrange(0, k as int)[q].1 == i;
                    assert(before(stops@[q], stops@[k as int]));
                }
            }
            let ghost b0 = self.units@;
            let mut svc = self.swap_service(u, i, placeholder_service());
            let ghost kv0 = kills@;
            let mut ks = stop_service(&mut svc, StopMode::Graceful);
            proof {
                lemma_branch_kills_signal(x.branch_instances@, crate::services::StopSignal::Term);
            }
            kills.append(&mut ks);
            proof {
                assert forall|t: int| 0 <= t < kills@.len() implies (#[trigger] kills@[t]).signal == crate::services::StopSignal::Term by {
                    if t >= kv0.len() {
                        let head = match x.pid {
                            Some(p) => seq![KillRequest { pid: p, signal: signal_for(StopMode::Graceful) }],
                            None => Seq::empty(),
                        };
                        if t - kv0.len() >= head.len() {
                            assert(kills@[t] == crate::services::branch_kills(x.branch_instances@, crate::services::StopSignal::Term)[t - kv0.len() - head.len()]);
                        }
                    }
                }
            }
            let ghost y = svc;
            self.swap_service(u, i, svc);
            proof {
                let sub1 = stops@.subrange(0, k + 1);
                assert(sub1.drop_last() =~= stops@.subrange(0, k as int));
                assert(sub1.last() == stops@[k as int]);
                assert(kills@ =~= kv0 + stop_kills(x, StopMode::Graceful));
                assert(kills@ == stop_kills_for(s0.units@, sub1, StopMode::Graceful));
                assert(stop_result(x, y));
                assert(svc_list(self.units@[u as int].value) =~= svc_list(b0[u as int].value).update(i as int, y));
                assert forall|v: int, j: int|
                    0 <= v < s0.units@.len() && 0 <= j < svc_list(s0.units@[v].value).len() implies {
                        let xx = svc_list(s0.units@[v].value)[j];
                        let yy = #[trigger] svc_list(self.units@[v].value)[j];
                        if has_pos(stops@.subrange(0, k + 1), v, j) {
                            stop_result(xx, yy)
                        } else {
                            yy == xx
                        }
                    } by {
                    let sub0 = stops@.subrange(0, k as int);
                    let sub1 = stops@.subrange(0, k + 1);
                    if has_pos(sub1, v, j) && !(v == u && j == i) {
                        let q = choose|q: int| 0 <= q < sub1.len() && sub1[q].0 == v && sub1[q].1 == j;
                        assert(sub0[q] == sub1[q]);
                        assert(has_pos(sub0, v, j));
                    }
                    if has_pos(sub0, v, j) {
                        let q = choose|q: int| 0 <= q < sub0.len() && sub0[q].0 == v && sub0[q].1 == j;
                        assert(sub1[q] == sub0[q]);
                        assert(has_pos(sub1, v, j));
                        assert(before(stops@[q], stops@[k as int]));
                    }
                    if v == u && j == i {
                        assert(sub1[k as int] == stops@[k as int]);
                        assert(has_pos(sub1, v, j));
                    }
                }
            }
            k = k + 1;
        }
        let ghost s1 = *self;
        proof {
            assert(stops@.subrange(0, stops@.len() as int) =~= stops@);
            assert(kills@ == stop_kills_for(s0.units@, stops@, StopMode::Graceful));
        }
        let mut k: usize = 0;
        while k < starts.len()
            invariant
                self.wf(),
                s0.wf(),
                s0 == *old(self),
                self.enabled == s0.enabled,
                self.states == s0.states,
                same_shape(s0.units@, s1.units@),
                same_shape(s0.units@, self.units@),
                k <= starts@.len(),
                forall|q: int| 0 <= q < starts@.len() ==> triggered(s0, (#[trigger] starts@[q]).0 as int, starts@[q].1 as int, *trigger, action, true),
                forall|a: int, b: int| 0 <= a < b < starts@.len() ==> before(#[trigger] starts@[a], #[trigger] starts@[b]),
                forall|u: int, i: int|
                    0 <= u < s0.units@.len() && 0 <= i < svc_list(s0.units@[u].value).len() ==> {
                        let x = svc_list(s1.units@[u].value)[i];
                        let y = #[trigger] svc_list(self.units@[u].value)[i];
                        if has_pos(starts@.subrange(0, k as int), u, i) {
                            y == (Service { state: ServiceState::Starting, ..x })
                        } else {
                            y == x
                        }
                    },
            decreases starts@.len() - k,
        {
            let (u, i) = starts[k];
            assert(triggered(s0, u as int, i as int, *trigger, action, true));
            let ghost x = svc_list(s1.units@[u as int].value)[i as int];
            assert(svc_list(self.units@[u as int].value)[i as int] == x) by {
                if has_pos(starts@.subrange(0, k as int), u as int, i as int) {
                    let q = choose|q: int| 0 <= q < k && starts@.subrange(0, k as int)[q].0 == u && starts@.subrange(0, k as int)[q].1 == i;
                    assert(before(starts@[q], starts@[k as int]));
                }
            }
            let ghost b0 = self.units@;
            let mut svc = self.swap_service(u, i, placeholder_service());
            begin_start(&mut svc);
            let ghost y = svc;
            self.swap_service(u, i, svc);
            proof {
                assert(svc_list(self.units@[u as int].value) =~= svc_list(b0[u as int].value).update(i as int, y));
                assert forall|v: int, j: int|
                    0 <= v < s0.units@.len() && 0 <= j < svc_list(s0.units@[v].value).len() implies {
                        let xx = svc_list(s1.units@[v].value)[j];
                        let yy = #[trigger] svc_list(self.units@[v].value)[j];
                        if has_pos(starts@.subrange(0, k + 1), v, j) {
                            yy == (Service { state: ServiceState::Starting, ..xx })
                        } else {
                            yy == xx
                        }
                    } by {
                    let sub0 = starts@.subrange(0, k as int);
                    let sub1 = starts@.subrange(0, k + 1);
                    if has_pos(sub1, v, j) && !(v == u && j == i) {
                        let q = choose|q: int| 0 <= q < sub1.len() && sub1[q].0 == v && sub1[q].1 == j;
                        assert(sub0[q] == sub1[q]);
                        assert(has_pos(sub0, v, j));
                    }
                    if has_pos(sub0, v, j) {
                        let q = choose|q: int| 0 <= q < sub0.len() && sub0[q].0 == v && sub0[q].1 == j;
                        assert(sub1[q] == sub0[q]);
                        assert(has_pos(sub1, v, j));
                        assert(before(starts@[q], starts@[k as int]));
                    }
                    if v == u && j == i {
                        assert(sub1[k as int] == starts@[k as int]);
                        assert(has_pos(sub1, v, j));
                    }
                }
            }
            k = k + 1;
        }
        proof {
            assert(starts@.subrange(0, starts@.len() as int) =~= starts@);
            assert forall|u: int, i: int|
                0 <= u < s0.units@.len() && 0 <= i < svc_list(s0.units@[u].value).len() implies {
                    let x = svc_list(s0.units@[u].value)[i];
                    let y = #[trigger] svc_list(self.units@[u].value)[i];
                    let stop = triggered(s0, u, i, *trigger, action, false);
                    let start = triggered(s0, u, i, *trigger, action, true);
                    if start && stop {
                        restarted(x, y)
                    } else if start {
                        y == (Service { state: ServiceState::Starting, ..x })
                    } else if stop {
                        stop_result(x, y)
                    } else {
                        y == x
                    }
                } by {
                let x = svc_list(s0.units@[u].value)[i];
                let m = svc_list(s1.units@[u].value)[i];
                let y = svc_list(self.units@[u].value)[i];
                let stop = triggered(s0, u, i, *trigger, action, false);
                let start = triggered(s0, u, i, *trigger, action, true);
                if stop {
                    assert(has_pos(stops@, u, i));
                    assert(stop_result(x, m));
                    if start {
                        assert(has_pos(starts@, u, i));
                        assert(Service { state: stop_state(x), ..y } == m);
                    }
                } else {
                    if has_pos(stops@, u, i) {
                        let q = choose|q: int| 0 <= q < stops@.len() && stops@[q].0 == u && stops@[q].1 == i;
                        assert(triggered(s0, stops@[q].0 as int, stops@[q].1 as int, *trigger, action, false));
                    }
                    assert(m == x);
                }
                if start {
                    assert(has_pos(starts@, u, i));
                } else {
                    if has_pos(starts@, u, i) {
                        let q = choose|q: int| 0 <= q < starts@.len() && starts@[q].0 == u && starts@[q].1 == i;
                        assert(triggered(s0, starts@[q].0 as int, starts@[q].1 as int, *trigger, action, true));
                    }
                }
            }
        }
        TriggerOutcome { stopped: stops, started: starts, kills }
    }
}

/// Where a flow change is sent: the transports subscribed to the flow (by
/// name), the services with a transport, and whether the change puts or
/// removes the payload.
pub struct BroadcastPlan {
    pub subscribers: Vec<String>,
    pub services: Vec<(usize, usize)>,
    pub action: crate::transport::TransportMessageAction,
}

/// The names of the subscribed transports of a definition.
pub open spec fn subscriber_ids(d: FlowDefinitionBase) -> Seq<Seq<char>> {
    match d.subscribers {
        Some(v) => v@.map_values(|m: crate::transport::TransportMethod| method_id(m)),
        None => Seq::empty(),
    }
}

impl Store {
    /// Where a flow change goes (see `BroadcastPlan`); refused, as a state
    /// validation failure, where the flow is unknown or its payload is not
    /// of the declared type.
    pub fn broadcast_plan(&self, instance: &FlowInstance, action: FlowChangeAction) -> (r: Result<BroadcastPlan, crate::engine::FlowError>)
        requires
            self.wf(),
        ensures
            match r {
                Ok(plan) => {
                    &&& crate::store::check_flow_spec(self.units@, instance.flow_type, instance.name@, Some(instance.payload)) matches Some(d)
                        && plan.subscribers@.map_values(|x: String| x@) == subscriber_ids(d)
                    &&& plan.action == if action == FlowChangeAction::Revert {
                        crate::transport::TransportMessageAction::Remove
                    } else {
                        crate::transport::TransportMessageAction::Put
                    }
                    &&& forall|k: int| 0 <= k < plan.services@.len() ==> has_transport(*self, (#[trigger] plan.services@[k]).0 as int, plan.services@[k].1 as int)
                    &&& forall|a: int, b: int| 0 <= a < b < plan.services@.len() ==> before(#[trigger] plan.services@[a], #[trigger] plan.services@[b])
                    &&& forall|u: int, i: int| #[trigger] has_transport(*self, u, i) ==> has_pos(plan.services@, u, i)
                },
                Err(e) => e == crate::engine::FlowError::StateValidation && crate::store::check_flow_spec(
                    self.units@,
                    instance.flow_type,
                    instance.name@,
                    Some(instance.payload),
                ) is None,
            },
    {
        let p = Some(instance.payload.duplicate());
        proof {
            crate::triggers::lemma_fits_same_payload(instance.payload, p->0);
        }
        let d = match self.check_flow(instance.flow_type, instance.name.as_str(), &p) {
            Some(d) => d,
            None => {
                return Err(crate::engine::FlowError::StateValidation);
            },
        };
        let mut subscribers: Vec<String> = Vec::new();
        match &d.subscribers {
            Some(v) => {
                let mut k: usize = 0;
                while k < v.len()
                    invariant
                        k <= v@.len(),
                        subscribers@.len() == k,
                        forall|t: int| 0 <= t < k ==> (#[trigger] subscribers@[t])@ == method_id(v@[t]),
                    decreases v@.len() - k,
                {
                    subscribers.push(v[k].as_id().0.clone());
                    k = k + 1;
                }
                assert(subscribers@.map_values(|x: String| x@) =~= v@.map_values(|m: crate::transport::TransportMethod| method_id(m)));
            },
            None => {
                assert(subscribers@.map_values(|x: String| x@) =~= Seq::<Seq<char>>::empty());
            },
        }
        let sel = Selector::Transport;
        let services = self.select(&sel);
        proof {
            assert(forall|u: int, i: int|
                #![trigger selected(*self, u, i, sel)]
                #![trigger has_transport(*self, u, i)]
                selected(*self, u, i, sel) == has_transport(*self, u, i));
        }
        let act = if action == FlowChangeAction::Revert {
            crate::transport::TransportMessageAction::Remove
        } else {
            crate::transport::TransportMessageAction::Put
        };
        Ok(BroadcastPlan { subscribers, services, action: act })
    }
}

/// The mounts of a unit, none where it declares none.
pub open spec fn mnt_list(u: Unit) -> Seq<crate::units::Mount> {
    match u.mount {
        Some(v) => v@,
        None => Seq::empty(),
    }
}

/// Whether mount `i` of the unit at `u` is enabled: its unit is enabled, for
/// all its components or for this target.
pub open spec fn enabled_mount(s: Store, u: int, i: int) -> bool {
    &&& 0 <= u < s.units@.len()
    &&& 0 <= i < mnt_list(s.units@[u].value).len()
    &&& {
        let key = s.units@[u].key@;
        &&& s.enabled_sets().contains_key(key)
        &&& (s.enabled_sets()[key].is_empty() || s.enabled_sets()[key].contains(mnt_list(s.units@[u].value)[i].target@))
    }
}

/// The enabled mounts in table order, as items of a start order: known by
/// their target when mounted directly, by `unit@target` when mounted after
/// waiting, waiting for their `after` list.
pub open spec fn mount_items_spec(s: Store, pos: Seq<(usize, usize)>, items: Seq<crate::order::DepItem>) -> bool {
    &&& items.len() == pos.len()
    &&& forall|t: int|
        0 <= t < pos.len() ==> {
            let x = mnt_list(s.units@[(#[trigger] pos[t]).0 as int].value)[pos[t].1 as int];
            &&& items[t].name@ == x.target@
            &&& items[t].waited_name@ == s.units@[pos[t].0 as int].key@ + "@"@ + x.target@
            &&& crate::order::after_list(items[t].after) == crate::order::after_list(x.after)
        }
}

/// Whether service `i` of the unit at `u` starts with the enabled services.
pub open spec fn enabled_service(s: Store, u: int, i: int) -> bool {
    &&& 0 <= u < s.units@.len()
    &&& 0 <= i < svc_list(s.units@[u].value).len()
    &&& service_enabled(s, u, i)
}

/// The enabled services in table order, as items of a start order: known by
/// their full name `unit@service` either way, waiting for their `after` list.
pub open spec fn start_items_spec(s: Store, pos: Seq<(usize, usize)>, items: Seq<crate::order::DepItem>) -> bool {
    &&& items.len() == pos.len()
    &&& forall|t: int|
        0 <= t < pos.len() ==> {
            let x = svc_list(s.units@[(#[trigger] pos[t]).0 as int].value)[pos[t].1 as int];
            &&& items[t].name@ == comp_id(s.units@, pos[t].0 as int, pos[t].1 as int)
            &&& items[t].waited_name@ == comp_id(s.units@, pos[t].0 as int, pos[t].1 as int)
            &&& crate::order::after_list(items[t].after) == crate::order::after_list(x.after)
        }
}

impl Store {
    /// The enabled services by position, in table order, each with its start item.
    pub fn start_items(&self) -> (r: (Vec<(usize, usize)>, Vec<crate::order::DepItem>))
        requires
            self.wf(),
        ensures
            forall|k: int| 0 <= k < r.0@.len() ==> enabled_service(*self, (#[trigger] r.0@[k]).0 as int, r.0@[k].1 as int),
            forall|a: int, b: int| 0 <= a < b < r.0@.len() ==> before(#[trigger] r.0@[a], #[trigger] r.0@[b]),
            forall|u: int, i: int| #[trigger] enabled_service(*self, u, i) ==> has_pos(r.0@, u, i),
            start_items_spec(*self, r.0@, r.1@),
    {
        let mut pos: Vec<(usize, usize)> = Vec::new();
        let mut items: Vec<crate::order::DepItem> = Vec::new();
        let mut u: usize = 0;
        while u < self.units.len()
            invariant
                self.wf(),
                u <= self.units@.len(),
                forall|k: int| 0 <= k < pos@.len() ==> enabled_service(*self, (#[trigger] pos@[k]).0 as int, pos@[k].1 as int),
                forall|k: int| 0 <= k < pos@.len() ==> (#[trigger] pos@[k]).0 < u,
                forall|a: int, b: int| 0 <= a < b < pos@.len() ==> before(#[trigger] pos@[a], #[trigger] pos@[b]),
                forall|v: int, i: int| #[trigger] enabled_service(*self, v, i) && v < u ==> has_pos(pos@, v, i),
                start_items_spec(*self, pos@, items@),
            decreases self.units@.len() - u,
        {
            match &self.units[u].value.service {
                Some(svcs) => {
                    let ghost pos0 = pos@;
                    let mut i: usize = 0;
                    while i < svcs.len()
                        invariant
                            self.wf(),
                            u < self.units@.len(),
                            self.units@[u as int].value.service == Some(*svcs),
                            i <= svcs@.len(),
                            pos0.len() <= pos@.len(),
                            pos@.subrange(0, pos0.len() as int) == pos0,
                            forall|k: int| 0 <= k < pos0.len() ==> (#[trigger] pos0[k]).0 < u,
                            forall|k: int| 0 <= k < pos@.len() ==> enabled_service(*self, (#[trigger] pos@[k]).0 as int, pos@[k].1 as int),
                            forall|k: int| pos0.len() <= k < pos@.len() ==> (#[trigger] pos@[k]).0 == u && pos@[k].1 < i,
                            forall|a: int, b: int| 0 <= a < b < pos@.len() ==> before(#[trigger] pos@[a], #[trigger] pos@[b]),
                            forall|v: int, j: int| #[trigger] enabled_service(*self, v, j) && (v < u || (v == u && j < i)) ==> has_pos(pos@, v, j),
                            start_items_spec(*self, pos@, items@),
                        decreases svcs@.len() - i,
                    {
                        if self.is_service_enabled(u, i) {
                            let ghost ob = pos@;
                            let ghost ib = items@;
                            let after = match &svcs[i].after {
                                Some(a) => Some(crate::transport::clone_strings(a)),
                                None => None,
                            };
                            proof {
                                let x = svcs@[i as int];
                                match x.after {
                                    Some(a) => {
                                        assert(crate::order::after_list(after) =~= crate::order::after_list(x.after));
                                    },
                                    None => {},
                                }
                            }
                            let (id, _) = self.comp_id_at(u, i);
                            items.push(crate::order::DepItem { name: id.clone(), waited_name: id, after });
                            pos.push((u, i));
                            proof {
                                assert(pos@.subrange(0, pos0.len() as int) =~= ob.subrange(0, pos0.len() as int));
                                assert forall|t: int| 0 <= t < pos@.len() implies {
                                    let x = svc_list(self.units@[(#[trigger] pos@[t]).0 as int].value)[pos@[t].1 as int];
                                    &&& items@[t].name@ == comp_id(self.units@, pos@[t].0 as int, pos@[t].1 as int)
                                    &&& items@[t].waited_name@ == comp_id(self.units@, pos@[t].0 as int, pos@[t].1 as int)
                                    &&& crate::order::after_list(items@[t].after) == crate::order::after_list(x.after)
                                } by {
                                    if t < ob.len() {
                                        assert(pos@[t] == ob[t]);
                                        assert(items@[t] == ib[t]);
                                    }
                                }
                                assert forall|a: int, b: int| 0 <= a < b < pos@.len() implies before(#[trigger] pos@[a], #[trigger] pos@[b]) by {
                                    if b == pos@.len() - 1 && a < ob.len() {
                                        assert(pos@[a] == ob[a]);
                                        if a < pos0.len() {
                                            assert(pos0[a] == ob[a]);
                                        }
                                    } else if b < ob.len() {
                                        assert(pos@[a] == ob[a]);
                                        assert(pos@[b] == ob[b]);
                                    }
                                }
                                assert forall|v: int, j: int| #[trigger] enabled_service(*self, v, j) && (v < u || (v == u && j < i + 1)) implies has_pos(pos@, v, j) by {
                                    if v == u && j == i {
                                        assert(pos@[ob.len() as int] == (u, i));
                                    } else {
                                        let q = choose|q: int| 0 <= q < ob.len() && ob[q].0 == v && ob[q].1 == j;
                                        assert(pos@[q] == ob[q]);
                                    }
                                }
                            }
                        }
                        i = i + 1;
                    }
                    proof {
                        assert forall|v: int, j: int| #[trigger] enabled_service(*self, v, j) && v < u + 1 implies has_pos(pos@, v, j) by {
                            if v == u {
                                assert(j < svcs@.len());
                            }
                        }
                        assert forall|k: int| 0 <= k < pos@.len() implies (#[trigger] pos@[k]).0 < u + 1 by {
                            if k < pos0.len() {
                                assert(pos@[k] == pos0[k]);
                            }
                        }
                    }
                },
                None => {
                    proof {
                        assert forall|v: int, j: int| #[trigger] enabled_service(*self, v, j) && v < u + 1 implies has_pos(pos@, v, j) by {
                            if v == u {
                                assert(svc_list(self.units@[u as int].value).len() == 0);
                            }
                        }
                    }
                },
            }
            u = u + 1;
        }
        (pos, items)
    }

    /// Starting the enabled services: their start order by dependencies (see
    /// `start_order_spec`; a service is known, and named in `after` lists, by
    /// its full name `unit@service`); each service in that order is marked `Starting`
    /// (the supervisor spawns them in turn). Gives the positions started, in
    /// order, and those whose dependencies are never met.
    pub fn start_services(&mut self) -> (r: (Vec<(usize, usize)>, Vec<(usize, usize)>))
        requires
            old(self).wf(),
        ensures
            final(self).wf(),
            final(self).enabled == old(self).enabled,
            final(self).states == old(self).states,
            same_shape(old(self).units@, final(self).units@),
            exists|pos: Seq<(usize, usize)>, items: Seq<crate::order::DepItem>|
                {
                    &&& start_items_spec(*old(self), pos, items)
                    &&& forall|u: int, i: int| #[trigger] enabled_service(*old(self), u, i) ==> has_pos(pos, u, i)
                    &&& forall|k: int| 0 <= k < pos.len() ==> enabled_service(*old(self), (#[trigger] pos[k]).0 as int, pos[k].1 as int)
                    &&& r.0@ == crate::order::start_order_spec(items).0.map_values(|t: int| pos[t])
                    &&& r.1@ == crate::order::start_order_spec(items).1.map_values(|t: int| pos[t])
                },
            forall|u: int, i: int|
                0 <= u < old(self).units@.len() && 0 <= i < svc_list(old(self).units@[u].value).len() ==> {
                    let x = svc_list(old(self).units@[u].value)[i];
                    let y = #[trigger] svc_list(final(self).units@[u].value)[i];
                    if has_pos(r.0@, u, i) {
                        y == (Service { state: ServiceState::Starting, ..x })
                    } else {
                        y == x
                    }
                },
    {
        let ghost s0 = *self;
        let (pos, items) = self.start_items();
        let so = crate::order::start_order(&items);
        proof {
            crate::order::lemma_start_order_bounds(items@);
            let sp = crate::order::start_order_spec(items@);
            assert forall|q: int| 0 <= q < so.order@.len() implies (#[trigger] so.order@[q]) < items@.len() by {
                assert(crate::order::positions(so.order)[q] == so.order@[q] as int);
                assert(sp.0[q] == so.order@[q] as int);
            }
            assert forall|a: int, b: int| 0 <= a < b < so.order@.len() implies (#[trigger] so.order@[a]) != (#[trigger] so.order@[b]) by {
                assert(crate::order::positions(so.order)[a] == so.order@[a] as int);
                assert(crate::order::positions(so.order)[b] == so.order@[b] as int);
            }
            assert forall|q: int| 0 <= q < so.unresolved@.len() implies (#[trigger] so.unresolved@[q]) < pos@.len() by {
                assert(crate::order::positions(so.unresolved)[q] == so.unresolved@[q] as int);
                assert(sp.1[q] == so.unresolved@[q] as int);
            }
        }
        let mut started: Vec<(usize, usize)> = Vec::new();
        let mut k: usize = 0;
        while k < so.order.len()
            invariant
                self.wf(),
                s0.wf(),
                s0 == *old(self),
                self.enabled == s0.enabled,
                self.states == s0.states,
                same_shape(s0.units@, self.units@),
                k <= so.order@.len(),
                pos@.len() == items@.len(),
                crate::order::positions(so.order) == crate::order::start_order_spec(items@).0,
                forall|q: int| 0 <= q < so.order@.len() ==> (#[trigger] so.order@[q]) < items@.len(),
                forall|a: int, b: int| 0 <= a < b < so.order@.len() ==> (#[trigger] so.order@[a]) != (#[trigger] so.order@[b]),
                forall|a: int, b: int| 0 <= a < b < pos@.len() ==> before(#[trigger] pos@[a], #[trigger] pos@[b]),
                forall|q: int| 0 <= q < pos@.len() ==> enabled_service(s0, (#[trigger] pos@[q]).0 as int, pos@[q].1 as int),
                started@ == so.order@.subrange(0, k as int).map_values(|t: usize| pos@[t as int]),
                forall|u: int, i: int|
                    0 <= u < s0.units@.len() && 0 <= i < svc_list(s0.units@[u].value).len() ==> {
                        let x = svc_list(s0.units@[u].value)[i];
                        let y = #[trigger] svc_list(self.units@[u].value)[i];
                        if has_pos(started@, u, i) {
                            y == (Service { state: ServiceState::Starting, ..x })
                        } else {
                            y == x
                        }
                    },
            decreases so.order@.len() - k,
        {
            let t = so.order[k];
            let (u, i) = pos[t];
            assert(enabled_service(s0, u as int, i as int));
            let ghost x = svc_list(s0.units@[u as int].value)[i as int];
            assert(!has_pos(started@, u as int, i as int)) by {
                if has_pos(started@, u as int, i as int) {
                    let q = choose|q: int| 0 <= q < started@.len() && started@[q].0 == u && started@[q].1 == i;
                    let t2 = so.order@[q];
                    assert(started@[q] == pos@[t2 as int]);
                    assert(t2 != t);
                    if t2 < t {
                        assert(before(pos@[t2 as int], pos@[t as int]));
                    } else {
                        assert(before(pos@[t as int], pos@[t2 as int]));
                    }
                }
            }
            let ghost b0 = self.units@;
            let ghost st0 = started@;
            let mut svc = self.swap_service(u, i, placeholder_service());
            begin_start(&mut svc);
            let ghost y = svc;
            self.swap_service(u, i, svc);
            started.push((u, i));
            proof {
                assert(started@ =~= so.order@.subrange(0, k + 1).map_values(|t: usize| pos@[t as int]));
                assert(svc_list(self.units@[u as int].value) =~= svc_list(b0[u as int].value).update(i as int, y));
                assert forall|v: int, j: int|
                    0 <= v < s0.units@.len() && 0 <= j < svc_list(s0.units@[v].value).len() implies {
                        let xx = svc_list(s0.units@[v].value)[j];
                        let yy = #[trigger] svc_list(self.units@[v].value)[j];
                        if has_pos(started@, v, j) {
                            yy == (Service { state: ServiceState::Starting, ..xx })
                        } else {
                            yy == xx
                        }
                    } by {
                    if has_pos(started@, v, j) && !(v == u && j == i) {
                        let q = choose|q: int| 0 <= q < started@.len() && started@[q].0 == v && started@[q].1 == j;
                        assert(q < st0.len());
                        assert(started@[q] == st0[q]);
                        assert(has_pos(st0, v, j));
                    }
                    if has_pos(st0, v, j) {
                        let q = choose|q: int| 0 <= q < st0.len() && st0[q].0 == v && st0[q].1 == j;
                        assert(started@[q] == st0[q]);
                    }
                    if v == u && j == i {
                        assert(started@[st0.len() as int] == (u, i));
                    }
                }
            }
            k = k + 1;
        }
        let mut unresolved: Vec<(usize, usize)> = Vec::new();
        let mut k: usize = 0;
        while k < so.unresolved.len()
            invariant
                k <= so.unresolved@.len(),
                pos@.len() == items@.len(),
                forall|q: int| 0 <= q < so.unresolved@.len() ==> (#[trigger] so.unresolved@[q]) < pos@.len(),
                unresolved@ == so.unresolved@.subrange(0, k as int).map_values(|t: usize| pos@[t as int]),
            decreases so.unresolved@.len() - k,
        {
            unresolved.push(pos[so.unresolved[k]]);
            k = k + 1;
            assert(unresolved@ =~= so.unresolved@.subrange(0, k as int).map_values(|t: usize| pos@[t as int]));
        }
        proof {
            assert(so.order@.subrange(0, so.order@.len() as int) =~= so.order@);
            assert(so.unresolved@.subrange(0, so.unresolved@.len() as int) =~= so.unresolved@);
            assert(started@ =~= crate::order::start_order_spec(items@).0.map_values(|t: int| pos@[t]));
            assert(unresolved@ =~= crate::order::start_order_spec(items@).1.map_values(|t: int| pos@[t]));
        }
        (started, unresolved)
    }
}

impl Store {
    fn is_mount_enabled(&self, u: usize, i: usize) -> (r: bool)
        requires
            self.wf(),
            u < self.units@.len(),
            i < mnt_list(self.units@[u as int].value).len(),
        ensures
            r == enabled_mount(*self, u as int, i as int),
    {
        let e = &self.units[u];
        assert(e.key@ == self.units@[u as int].key@);
        let name = match &e.value.mount {
            Some(v) => &v[i].target,
            None => {
                assert(false);
                return false;
            },
        };
        match self.enabled_get(e.key.as_str()) {
            Some(filter) => {
                if filter.len() == 0 {
                    assert(strings_set(*filter) =~= Set::<Seq<char>>::empty());
                    true
                } else {
                    proof {
                        assert(strings_set(*filter).contains(filter@[0]@));
                    }
                    let r = crate::store::contains_text(filter, name.as_str());
                    proof {
                        let fv = filter@.map_values(|x: String| x@);
                        if r {
                            let q = choose|q: int| 0 <= q < fv.len() && fv[q] == name@;
                            assert(filter@[q]@ == name@);
                        }
                        if strings_set(*filter).contains(name@) {
                            let q = choose|q: int| 0 <= q < filter@.len() && (#[trigger] filter@[q])@ == name@;
                            assert(fv[q] == name@);
                        }
                    }
                    r
                }
            },
            None => false,
        }
    }

    /// The enabled mounts by position, in table order, each with its start item.
    pub fn mount_items(&self) -> (r: (Vec<(usize, usize)>, Vec<crate::order::DepItem>))
        requires
            self.wf(),
        ensures
            forall|k: int| 0 <= k < r.0@.len() ==> enabled_mount(*self, (#[trigger] r.0@[k]).0 as int, r.0@[k].1 as int),
            forall|a: int, b: int| 0 <= a < b < r.0@.len() ==> before(#[trigger] r.0@[a], #[trigger] r.0@[b]),
            forall|u: int, i: int| #[trigger] enabled_mount(*self, u, i) ==> has_pos(r.0@, u, i),
            mount_items_spec(*self, r.0@, r.1@),
    {
        let mut pos: Vec<(usize, usize)> = Vec::new();
        let mut items: Vec<crate::order::DepItem> = Vec::new();
        let mut u: usize = 0;
        while u < self.units.len()
            invariant
                self.wf(),
                u <= self.units@.len(),
                forall|k: int| 0 <= k < pos@.len() ==> enabled_mount(*self, (#[trigger] pos@[k]).0 as int, pos@[k].1 as int),
                forall|k: int| 0 <= k < pos@.len() ==> (#[trigger] pos@[k]).0 < u,
                forall|a: int, b: int| 0 <= a < b < pos@.len() ==> before(#[trigger] pos@[a], #[trigger] pos@[b]),
                forall|v: int, i: int| #[trigger] enabled_mount(*self, v, i) && v < u ==> has_pos(pos@, v, i),
                mount_items_spec(*self, pos@, items@),
            decreases self.units@.len() - u,
        {
            match &self.units[u].value.mount {
                Some(svcs) => {
                    let ghost pos0 = pos@;
                    let mut i: usize = 0;
                    while i < svcs.len()
                        invariant
                            self.wf(),
                            u < self.units@.len(),
                            self.units@[u as int].value.mount == Some(*svcs),
                            i <= svcs@.len(),
                            pos0.len() <= pos@.len(),
                            pos@.subrange(0, pos0.len() as int) == pos0,
                            forall|k: int| 0 <= k < pos0.len() ==> (#[trigger] pos0[k]).0 < u,
                            forall|k: int| 0 <= k < pos@.len() ==> enabled_mount(*self, (#[trigger] pos@[k]).0 as int, pos@[k].1 as int),
                            forall|k: int| pos0.len() <= k < pos@.len() ==> (#[trigger] pos@[k]).0 == u && pos@[k].1 < i,
                            forall|a: int, b: int| 0 <= a < b < pos@.len() ==> before(#[trigger] pos@[a], #[trigger] pos@[b]),
                            forall|v: int, j: int| #[trigger] enabled_mount(*self, v, j) && (v < u || (v == u && j < i)) ==> has_pos(pos@, v, j),
                            mount_items_spec(*self, pos@, items@),
                        decreases svcs@.len() - i,
                    {
                        if self.is_mount_enabled(u, i) {
                            let ghost ob = pos@;
                            let ghost ib = items@;
                            let after = match &svcs[i].after {
                                Some(a) => Some(crate::transport::clone_strings(a)),
                                None => None,
                            };
                            proof {
                                let x = svcs@[i as int];
                                match x.after {
                                    Some(a) => {
                                        assert(crate::order::after_list(after) =~= crate::order::after_list(x.after));
                                    },
                                    None => {},
                                }
                            }
                            let a0 = concat(self.units[u].key.as_str(), "@");
                            let waited = concat(a0.as_str(), svcs[i].target.as_str());
                            items.push(crate::order::DepItem { name: svcs[i].target.clone(), waited_name: waited, after });
                            pos.push((u, i));
                            proof {
                                assert(pos@.subrange(0, pos0.len() as int) =~= ob.subrange(0, pos0.len() as int));
                                assert forall|t: int| 0 <= t < pos@.len() implies {
                                    let x = mnt_list(self.units@[(#[trigger] pos@[t]).0 as int].value)[pos@[t].1 as int];
                                    &&& items@[t].name@ == x.target@
                                    &&& items@[t].waited_name@ == self.units@[pos@[t].0 as int].key@ + "@"@ + x.target@
                                    &&& crate::order::after_list(items@[t].after) == crate::order::after_list(x.after)
                                } by {
                                    if t < ob.len() {
                                        assert(pos@[t] == ob[t]);
                                        assert(items@[t] == ib[t]);
                                    }
                                }
                                assert forall|a: int, b: int| 0 <= a < b < pos@.len() implies before(#[trigger] pos@[a], #[trigger] pos@[b]) by {
                                    if b == pos@.len() - 1 && a < ob.len() {
                                        assert(pos@[a] == ob[a]);
                                        if a < pos0.len() {
                                            assert(pos0[a] == ob[a]);
                                        }
                                    } else if b < ob.len() {
                                        assert(pos@[a] == ob[a]);
                                        assert(pos@[b] == ob[b]);
                                    }
                                }
                                assert forall|v: int, j: int| #[trigger] enabled_mount(*self, v, j) && (v < u || (v == u && j < i + 1)) implies has_pos(pos@, v, j) by {
                                    if v == u && j == i {
                                        assert(pos@[ob.len() as int] == (u, i));
                                    } else {
                                        let q = choose|q: int| 0 <= q < ob.len() && ob[q].0 == v && ob[q].1 == j;
                                        assert(pos@[q] == ob[q]);
                                    }
                                }
                            }
                        }
                        i = i + 1;
                    }
                    proof {
                        assert forall|v: int, j: int| #[trigger] enabled_mount(*self, v, j) && v < u + 1 implies has_pos(pos@, v, j) by {
                            if v == u {
                                assert(j < svcs@.len());
                            }
                        }
                        assert forall|k: int| 0 <= k < pos@.len() implies (#[trigger] pos@[k]).0 < u + 1 by {
                            if k < pos0.len() {
                                assert(pos@[k] == pos0[k]);
                            }
                        }
                    }
                },
                None => {
                    proof {
                        assert forall|v: int, j: int| #[trigger] enabled_mount(*self, v, j) && v < u + 1 implies has_pos(pos@, v, j) by {
                            if v == u {
                                assert(mnt_list(self.units@[u as int].value).len() == 0);
                            }
                        }
                    }
                },
            }
            u = u + 1;
        }
        (pos, items)
    }

    /// Mounting the enabled mounts: their order by dependencies (see
    /// `start_order_spec` over `mount_items_spec`). Gives the positions to
    /// mount, in order, and those whose dependencies are never met.
    pub fn mount_plan(&self) -> (r: (Vec<(usize, usize)>, Vec<(usize, usize)>))
        requires
            self.wf(),
        ensures
            exists|pos: Seq<(usize, usize)>, items: Seq<crate::order::DepItem>|
                {
                    &&& mount_items_spec(*self, pos, items)
                    &&& forall|u: int, i: int| #[trigger] enabled_mount(*self, u, i) ==> has_pos(pos, u, i)
                    &&& forall|k: int| 0 <= k < pos.len() ==> enabled_mount(*self, (#[trigger] pos[k]).0 as int, pos[k].1 as int)
                    &&& r.0@ == crate::order::start_order_spec(items).0.map_values(|t: int| pos[t])
                    &&& r.1@ == crate::order::start_order_spec(items).1.map_values(|t: int| pos[t])
                },
    {
        let (pos, items) = self.mount_items();
        let so = crate::order::start_order(&items);
        proof {
            crate::order::lemma_start_order_bounds(items@);
            let sp = crate::order::start_order_spec(items@);
            assert forall|q: int| 0 <= q < so.order@.len() implies (#[trigger] so.order@[q]) < pos@.len() by {
                assert(crate::order::positions(so.order)[q] == so.order@[q] as int);
                assert(sp.0[q] == so.order@[q] as int);
            }
            assert forall|q: int| 0 <= q < so.unresolved@.len() implies (#[trigger] so.unresolved@[q]) < pos@.len() by {
                assert(crate::order::positions(so.unresolved)[q] == so.unresolved@[q] as int);
                assert(sp.1[q] == so.unresolved@[q] as int);
            }
        }
        let mut order: Vec<(usize, usize)> = Vec::new();
        let mut k: usize = 0;
        while k < so.order.len()
            invariant
                k <= so.order@.len(),
                forall|q: int| 0 <= q < so.order@.len() ==> (#[trigger] so.order@[q]) < pos@.len(),
                order@ == so.order@.subrange(0, k as int).map_values(|t: usize| pos@[t as int]),
            decreases so.order@.len() - k,
        {
            order.push(pos[so.order[k]]);
            k = k + 1;
            assert(order@ =~= so.order@.subrange(0, k as int).map_values(|t: usize| pos@[t as int]));
        }
        let mut unresolved: Vec<(usize, usize)> = Vec::new();
        let mut k: usize = 0;
        while k < so.unresolved.len()
            invariant
                k <= so.unresolved@.len(),
                forall|q: int| 0 <= q < so.unresolved@.len() ==> (#[trigger] so.unresolved@[q]) < pos@.len(),
                unresolved@ == so.unresolved@.subrange(0, k as int).map_values(|t: usize| pos@[t as int]),
            decreases so.unresolved@.len() - k,
        {
            unresolved.push(pos[so.unresolved[k]]);
            k = k + 1;
            assert(unresolved@ =~= so.unresolved@.subrange(0, k as int).map_values(|t: usize| pos@[t as int]));
        }
        proof {
            assert(so.order@.subrange(0, so.order@.len() as int) =~= so.order@);
            assert(so.unresolved@.subrange(0, so.unresolved@.len() as int) =~= so.unresolved@);
            assert(order@ =~= crate::order::start_order_spec(items@).0.map_values(|t: int| pos@[t]));
            assert(unresolved@ =~= crate::order::start_order_spec(items@).1.map_values(|t: int| pos@[t]));
        }
        (order, unresolved)
    }
}

impl Store {
    /// The position of the service a full name designates (see `service_spec`).
    pub fn locate_service(&self, full: &str) -> (r: Option<(usize, usize)>)
        requires
            self.wf(),
        ensures
            match r {
                Some((u, i)) => {
                    &&& u < self.units@.len()
                    &&& i < svc_list(self.units@[u as int].value).len()
                    &&& self.units@[u as int].value.service is Some
                    &&& crate::store::service_spec(self.units@, full@) == Some(svc_list(self.units@[u as int].value)[i as int])
                },
                None => crate::store::service_spec(self.units@, full@) is None,
            },
    {
        match crate::text::split_once_char(full, '@') {
            Some((un, c)) => match crate::keyed::find_key(&self.units, un.as_str()) {
                Some(u) => {
                    proof {
                        lemma_table_at(self.units@, u as int);
                    }
                    let unit = &self.units[u].value;
                    let key = crate::text::concat("service@", c.as_str());
                    match unit.index_get(key.as_str()) {
                        Some(p) => match &unit.service {
                            Some(v) => if p < v.len() {
                                Some((u, p))
                            } else {
                                None
                            },
                            None => None,
                        },
                        None => None,
                    }
                },
                None => None,
            },
            None => None,
        }
    }

    /// Starts (marks `Starting`) or stops service `i` of the unit at `u`.
    /// Gives the signals a stop sends.
    pub fn update_service(&mut self, u: usize, i: usize, start: bool, mode: StopMode) -> (kills: Vec<KillRequest>)
        requires
            old(self).wf(),
            u < old(self).units@.len(),
            i < svc_list(old(self).units@[u as int].value).len(),
        ensures
            final(self).wf(),
            final(self).enabled == old(self).enabled,
            final(self).states == old(self).states,
            same_shape(old(self).units@, final(self).units@),
            forall|v: int, j: int|
                0 <= v < old(self).units@.len() && 0 <= j < svc_list(old(self).units@[v].value).len() ==> {
                    let x = svc_list(old(self).units@[v].value)[j];
                    let y = #[trigger] svc_list(final(self).units@[v].value)[j];
                    if v == u && j == i {
                        if start {
                            y == (Service { state: ServiceState::Starting, ..x })
                        } else {
                            stop_result(x, y)
                        }
                    } else {
                        y == x
                    }
                },
            start ==> kills@.len() == 0,
            !start ==> kills@ == match svc_list(old(self).units@[u as int].value)[i as int].pid {
                Some(p) => seq![KillRequest { pid: p, signal: signal_for(mode) }],
                None => Seq::empty(),
            } + branch_kills(svc_list(old(self).units@[u as int].value)[i as int].branch_instances@, signal_for(mode)),
    {
        let ghost b0 = self.units@;
        let mut svc = self.swap_service(u, i, placeholder_service());
        let kills = if start {
            begin_start(&mut svc);
            Vec::new()
        } else {
            stop_service(&mut svc, mode)
        };
        let ghost y = svc;
        self.swap_service(u, i, svc);
        proof {
            assert(svc_list(self.units@[u as int].value) =~= svc_list(b0[u as int].value).update(i as int, y));
        }
        kills
    }
}

} // verus!
