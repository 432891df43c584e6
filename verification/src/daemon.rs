//! What the daemon answers to a request: the summaries it lists, and the
//! starts, stops, enables and disables it performs on the store.
use crate::keyed::{Keyed, table, find_key, lemma_table_at};
use crate::services::{Service, ServiceState, StopMode, KillRequest, RestartPolicy, begin_start, stop_service};
use crate::store::{Store, ComponentPlan, PersistMode, service_spec, state_def_spec, whole_plan, part_plan, saved_states, strings_set};
use crate::supervise::{svc_list, mnt_list};
use crate::text::{concat, owned, split_once_char, split_once_spec, str_eq};
use crate::transport::clone_strings;
use crate::triggers::{decimal, decimal_spec};
use crate::units::{Mount, Unit};
use crate::flow::FlowInstance;
use vstd::prelude::*;

verus! {

/// The kind of component a request names.
#[derive(Clone, Copy, PartialEq, Eq, Structural, Debug)]
pub enum UnitType {
    Flow,
    State,
    Signal,
    Service,
    Mount,
    Unit,
    Unknown,
}

/// A unit in a listing: its name, and how many services (active) and mounts
/// (mounted) it has.
pub struct UnitSerialized {
    pub name: String,
    pub services: usize,
    pub active_services: usize,
    pub mounts: usize,
    pub mounted: usize,
}

impl UnitSerialized {
    /// The summary, as an option.
    pub fn as_some(self) -> (r: Option<Self>)
        ensures
            r == Some(self),
    {
        Some(self)
    }
}

/// A service in a listing.
pub struct ServiceSerialized {
    pub name: String,
    pub last_state: String,
    pub after: Option<Vec<String>>,
    pub restart: bool,
    pub args: Vec<String>,
    pub executable: String,
    pub pid: Option<u32>,
}

/// A mount in a listing.
pub struct MountSerialized {
    pub source: Option<String>,
    pub target: String,
    pub fstype: Option<String>,
    pub mounted: bool,
}

/// The services and mounts of one unit, in a listing.
pub struct UnitItemsSerialized {
    pub mounts: Vec<MountSerialized>,
    pub services: Vec<ServiceSerialized>,
}

/// A state in a listing: its name and how many branches it has.
pub struct StateSerialized {
    pub name: String,
    pub instances: usize,
}

/// `str`'s `Debug` text: the text in double quotes, escaped.
pub uninterp spec fn debug_quoted(s: Seq<char>) -> Seq<char>;

/// `format!("{:?}", s)` for a string.
#[verifier::external_body]
pub(crate) fn debug_text(s: &str) -> (r: String)
    ensures
        r@ == debug_quoted(s@),
{
    format!("{:?}", s)
}

/// The decimal text of an integer, with a leading `-` when it is negative.
pub open spec fn int_text(n: int) -> Seq<char> {
    if n < 0 {
        seq!['-'] + decimal_spec((-n) as nat)
    } else {
        decimal_spec(n as nat)
    }
}

/// The decimal text of an `i32` (see `int_text`).
pub fn i32_text(n: i32) -> (r: String)
    ensures
        r@ == int_text(n as int),
{
    if n < 0 {
        let m: i64 = -(n as i64);
        let d = decimal(m as usize);
        let r = concat("-", d.as_str());
        proof {
            reveal_strlit("-");
        }
        r
    } else {
        decimal(n as usize)
    }
}

/// The `Debug` text of a service state: the variant's name, with its code or
/// message in brackets.
pub open spec fn state_text_spec(st: ServiceState) -> Seq<char> {
    match st {
        ServiceState::Active => "Active"@,
        ServiceState::Inactive => "Inactive"@,
        ServiceState::Starting => "Starting"@,
        ServiceState::Stopping => "Stopping"@,
        ServiceState::Exited(c) => "Exited("@ + int_text(c as int) + ")"@,
        ServiceState::Error(m) => "Error("@ + debug_quoted(m@) + ")"@,
    }
}

/// The `Debug` text of a service state (see `state_text_spec`).
pub fn state_text(st: &ServiceState) -> (r: String)
    ensures
        r@ == state_text_spec(*st),
{
    match st {
        ServiceState::Active => owned("Active"),
        ServiceState::Inactive => owned("Inactive"),
        ServiceState::Starting => owned("Starting"),
        ServiceState::Stopping => owned("Stopping"),
        ServiceState::Exited(c) => {
            let a = concat("Exited(", i32_text(*c).as_str());
            concat(a.as_str(), ")")
        },
        ServiceState::Error(m) => {
            let a = concat("Error(", debug_text(m.as_str()).as_str());
            concat(a.as_str(), ")")
        },
    }
}

/// How a service is listed: its name, state text, `after` list, whether it
/// restarts at all, arguments, command and process id.
pub open spec fn service_summary_spec(x: Service, r: ServiceSerialized) -> bool {
    &&& r.name@ == x.name@
    &&& r.last_state@ == state_text_spec(x.state)
    &&& crate::order::after_list(r.after) == crate::order::after_list(x.after)
    &&& (r.after is Some <==> x.after is Some)
    &&& r.restart == (x.restart != RestartPolicy::Bool(false))
    &&& r.args@.map_values(|s: String| s@) == x.args@.map_values(|s: String| s@)
    &&& r.executable@ == x.executable@
    &&& r.pid == x.pid
}

/// How a service is listed (see `service_summary_spec`).
pub fn service_summary(x: &Service) -> (r: ServiceSerialized)
    ensures
        service_summary_spec(*x, r),
{
    let after = match &x.after {
        Some(a) => Some(clone_strings(a)),
        None => None,
    };
    let restart = match x.restart {
        RestartPolicy::Bool(b) => b,
        RestartPolicy::OnFailure { .. } => true,
    };
    ServiceSerialized {
        name: x.name.clone(),
        last_state: state_text(&x.state),
        after,
        restart,
        args: clone_strings(&x.args),
        executable: x.executable.clone(),
        pid: x.pid,
    }
}

/// A mount in a listing: its target, source and file system type, and whether it is mounted.
pub open spec fn mount_summary_spec(m: Mount, mounted: bool, r: MountSerialized) -> bool {
    &&& r.target@ == m.target@
    &&& r.mounted == mounted
    &&& (r.source is Some <==> m.source is Some)
    &&& (m.source matches Some(s) ==> r.source->0@ == s@)
    &&& (r.fstype is Some <==> m.fstype is Some)
    &&& (m.fstype matches Some(s) ==> r.fstype->0@ == s@)
}

/// How a mount is listed, with whether it is mounted.
pub fn mount_summary(m: &Mount, mounted: bool) -> (r: MountSerialized)
    ensures
        mount_summary_spec(*m, mounted, r),
{
    MountSerialized {
        source: match &m.source {
            Some(s) => Some(s.clone()),
            None => None,
        },
        target: m.target.clone(),
        fstype: match &m.fstype {
            Some(s) => Some(s.clone()),
            None => None,
        },
        mounted,
    }
}

/// The number of services of a list that are active.
pub open spec fn active_count(s: Seq<Service>) -> nat
    decreases s.len(),
{
    if s.len() == 0 {
        0
    } else {
        active_count(s.drop_last()) + if s.last().state is Active {
            1nat
        } else {
            0nat
        }
    }
}

/// The number of flags that are set.
pub open spec fn true_count(s: Seq<bool>) -> nat
    decreases s.len(),
{
    if s.len() == 0 {
        0
    } else {
        true_count(s.drop_last()) + if s.last() {
            1nat
        } else {
            0nat
        }
    }
}

fn count_active(s: &Vec<Service>) -> (r: usize)
    ensures
        r == active_count(s@),
{
    let mut n: usize = 0;
    let mut i: usize = 0;
    while i < s.len()
        invariant
            i <= s@.len(),
            n == active_count(s@.subrange(0, i as int)),
            n <= i,
        decreases s@.len() - i,
    {
        assert(s@.subrange(0, i + 1).drop_last() =~= s@.subrange(0, i as int));
        if s[i].state == ServiceState::Active {
            n = n + 1;
        }
        i = i + 1;
    }
    assert(s@.subrange(0, s@.len() as int) =~= s@);
    n
}

fn count_true(s: &Vec<bool>) -> (r: usize)
    ensures
        r == true_count(s@),
{
    let mut n: usize = 0;
    let mut i: usize = 0;
    while i < s.len()
        invariant
            i <= s@.len(),
            n == true_count(s@.subrange(0, i as int)),
            n <= i,
        decreases s@.len() - i,
    {
        assert(s@.subrange(0, i + 1).drop_last() =~= s@.subrange(0, i as int));
        if s[i] {
            n = n + 1;
        }
        i = i + 1;
    }
    assert(s@.subrange(0, s@.len() as int) =~= s@);
    n
}

/// How a unit is listed: its name, its services and the active ones, its
/// mounts and the mounted ones (`mounted` holds a flag for each mount).
pub fn unit_summary(name: &str, u: &Unit, mounted: &Vec<bool>) -> (r: UnitSerialized)
    ensures
        r.name@ == name@,
        r.services == svc_list(*u).len(),
        r.active_services == active_count(svc_list(*u)),
        r.mounts == mnt_list(*u).len(),
        r.mounted == true_count(mounted@),
{
    let (services, active) = match &u.service {
        Some(v) => (v.len(), count_active(v)),
        None => (0, 0),
    };
    let mounts = match &u.mount {
        Some(v) => v.len(),
        None => 0,
    };
    UnitSerialized { name: owned(name), services, active_services: active, mounts, mounted: count_true(mounted) }
}

/// What the daemon answers.
pub enum DaemonReply {
    Ack(String),
    Nack(String),
    Failure(String),
    UnitItems(UnitItemsSerialized),
    Service(ServiceSerialized),
    State(StateSerialized),
    Units(Vec<UnitSerialized>),
}

/// The acknowledgement `<verb> <name>`.
pub open spec fn ack_text(verb: Seq<char>, name: Seq<char>) -> Seq<char> {
    verb + " "@ + name
}

/// The refusal for a component that is not found.
pub open spec fn not_found_text(name: Seq<char>) -> Seq<char> {
    "Unit component not found: "@ + debug_quoted(name)
}

fn ack(verb: &str, name: &str) -> (r: DaemonReply)
    ensures
        r matches DaemonReply::Ack(t) && t@ == ack_text(verb@, name@),
{
    let a = concat(verb, " ");
    DaemonReply::Ack(concat(a.as_str(), name))
}

fn not_found(name: &str) -> (r: DaemonReply)
    ensures
        r matches DaemonReply::Nack(t) && t@ == not_found_text(name@),
{
    DaemonReply::Nack(concat("Unit component not found: ", debug_text(name).as_str()))
}

/// Where an enable or disable request goes: `unit@component` names a
/// component of a unit (`*` for all of them), anything else a whole unit.
pub open spec fn request_target(name: Seq<char>) -> Option<(Seq<char>, Seq<char>)> {
    split_once_spec(name, '@')
}

/// The components each unit of an enabled table is limited to.
pub open spec fn table_sets(e: Seq<Keyed<Vec<String>>>) -> Map<Seq<char>, Set<Seq<char>>> {
    Map::new(|k: Seq<char>| table(e).contains_key(k), |k: Seq<char>| strings_set(table(e)[k]))
}

/// The states `after` come from `before` by two saves of the enabled units
/// in turn: first of a table whose units are limited as `mid` says, then of
/// the table `last`.
pub open spec fn saved_in_turn(
    mid: Map<Seq<char>, Set<Seq<char>>>,
    last: Seq<Keyed<Vec<String>>>,
    before: Map<Seq<char>, Seq<FlowInstance>>,
    after: Map<Seq<char>, Seq<FlowInstance>>,
) -> bool {
    exists|e: Seq<Keyed<Vec<String>>>, m: Map<Seq<char>, Seq<FlowInstance>>|
        #![trigger saved_states(e, before, m)]
        table_sets(e) == mid && saved_states(e, before, m) && saved_states(last, m, after)
}

impl Store {
    /// Starts the service a request names: it is marked `Starting` (the
    /// supervisor spawns it) and the request acknowledged as `started <name>`;
    /// an unknown service is refused.
    pub fn handle_start(&mut self, name: &str) -> (r: (DaemonReply, Option<(usize, usize)>))
        requires
            old(self).wf(),
        ensures
            final(self).wf(),
            final(self).enabled == old(self).enabled,
            final(self).states == old(self).states,
            match r.1 {
                Some((u, i)) => {
                    &&& service_spec(old(self).units@, name@) == Some(svc_list(old(self).units@[u as int].value)[i as int])
                    &&& r.0 matches DaemonReply::Ack(t) && t@ == ack_text("started"@, name@)
                    &&& crate::supervise::same_shape(old(self).units@, final(self).units@)
                    &&& forall|v: int, j: int|
                        0 <= v < old(self).units@.len() && 0 <= j < svc_list(old(self).units@[v].value).len() ==> {
                            let x = svc_list(old(self).units@[v].value)[j];
                            let y = #[trigger] svc_list(final(self).units@[v].value)[j];
                            if v == u && j == i {
                                y == (Service { state: ServiceState::Starting, ..x })
                            } else {
                                y == x
                            }
                        }
                },
                None => {
                    &&& service_spec(old(self).units@, name@) is None
                    &&& r.0 matches DaemonReply::Nack(t) && t@ == not_found_text(name@)
                    &&& final(self).units == old(self).units
                },
            },
    {
        match self.locate_service(name) {
            Some((u, i)) => {
                self.update_service(u, i, true, StopMode::Graceful);
                (ack("started", name), Some((u, i)))
            },
            None => (not_found(name), None),
        }
    }

    /// Stops the service a request names (killed with `force`, else
    /// terminated) and acknowledges `stopped <name>`; an unknown service is
    /// refused. Gives the signals to send.
    pub fn handle_stop(&mut self, name: &str, force: bool) -> (r: (DaemonReply, Option<(usize, usize)>, Vec<KillRequest>))
        requires
            old(self).wf(),
        ensures
            final(self).wf(),
            final(self).enabled == old(self).enabled,
            final(self).states == old(self).states,
            match r.1 {
                Some((u, i)) => {
                    &&& service_spec(old(self).units@, name@) == Some(svc_list(old(self).units@[u as int].value)[i as int])
                    &&& r.0 matches DaemonReply::Ack(t) && t@ == ack_text("stopped"@, name@)
                    &&& crate::supervise::same_shape(old(self).units@, final(self).units@)
                    &&& forall|v: int, j: int|
                        0 <= v < old(self).units@.len() && 0 <= j < svc_list(old(self).units@[v].value).len() ==> {
                            let x = svc_list(old(self).units@[v].value)[j];
                            let y = #[trigger] svc_list(final(self).units@[v].value)[j];
                            if v == u && j == i {
                                crate::supervise::stop_result(x, y)
                            } else {
                                y == x
                            }
                        }
                    &&& r.2@ == match svc_list(old(self).units@[u as int].value)[i as int].pid {
                        Some(p) => seq![KillRequest { pid: p, signal: crate::services::signal_for(if force { StopMode::ForceKill } else { StopMode::Graceful }) }],
                        None => Seq::empty(),
                    } + crate::services::branch_kills(
                        svc_list(old(self).units@[u as int].value)[i as int].branch_instances@,
                        crate::services::signal_for(if force { StopMode::ForceKill } else { StopMode::Graceful }),
                    )
                },
                None => {
                    &&& service_spec(old(self).units@, name@) is None
                    &&& r.0 matches DaemonReply::Nack(t) && t@ == not_found_text(name@)
                    &&& final(self).units == old(self).units
                    &&& r.2@.len() == 0
                },
            },
    {
        let mode = if force {
            StopMode::ForceKill
        } else {
            StopMode::Graceful
        };
        match self.locate_service(name) {
            Some((u, i)) => {
                let kills = self.update_service(u, i, false, mode);
                (ack("stopped", name), Some((u, i)), kills)
            },
            None => (not_found(name), None, Vec::new()),
        }
    }

    /// Enables what a request names: `unit@*` enables the whole unit and then
    /// the component `*`; `unit@component` the component; anything else the
    /// whole unit; all persisted. Acknowledges `enabled <name>`. Gives the
    /// plans, each with the unit it is for.
    pub fn handle_enable(&mut self, name: &str) -> (r: (DaemonReply, Vec<(String, ComponentPlan)>))
        requires
            old(self).wf(),
        ensures
            final(self).wf(),
            final(self).units == old(self).units,
            r.0 matches DaemonReply::Ack(t) && t@ == ack_text("enabled"@, name@),
            final(self).enabled_sets() == match request_target(name@) {
                Some((u, c)) => if c == "*"@ {
                    old(self).enabled_sets().insert(u, Set::<Seq<char>>::empty().insert(c))
                } else {
                    old(self).enabled_sets().insert(
                        u,
                        crate::store::filter_or_empty(old(self).enabled_sets(), u).insert(c),
                    )
                },
                None => old(self).enabled_sets().insert(name@, Set::<Seq<char>>::empty()),
            },
            match request_target(name@) {
                Some((u, c)) => if c == "*"@ {
                    &&& r.1@.len() == 2
                    &&& whole_plan(old(self).units@, u, r.1@[0].1)
                    &&& part_plan(old(self).units@, u, c, r.1@[1].1)
                } else {
                    r.1@.len() == 1 && part_plan(old(self).units@, u, c, r.1@[0].1)
                },
                None => r.1@.len() == 1 && whole_plan(old(self).units@, name@, r.1@[0].1),
            },
            forall|t: int| 0 <= t < r.1@.len() ==> (#[trigger] r.1@[t]).0@ == match request_target(name@) {
                Some((u, c)) => u,
                None => name@,
            },
            match request_target(name@) {
                Some((u, c)) => if c == "*"@ {
                    saved_in_turn(
                        old(self).enabled_sets().insert(u, Set::<Seq<char>>::empty()),
                        final(self).enabled@,
                        old(self).state_map(),
                        final(self).state_map(),
                    )
                } else {
                    saved_states(final(self).enabled@, old(self).state_map(), final(self).state_map())
                },
                None => saved_states(final(self).enabled@, old(self).state_map(), final(self).state_map()),
            },
    {
        let mut plans: Vec<(String, ComponentPlan)> = Vec::new();
        match split_once_char(name, '@') {
            Some((unit, thing)) => {
                if str_eq(thing.as_str(), "*") {
                    let p = self.enable_unit(unit.as_str(), PersistMode::Yes);
                    plans.push((unit.clone(), p));
                }
                let ghost e0 = self.enabled_sets();
                let ghost t0 = self.enabled@;
                let ghost m0 = self.state_map();
                let p = self.enable_component(unit.as_str(), thing.as_str(), PersistMode::Yes);
                proof {
                    if thing@ == "*"@ {
                        assert(crate::store::filter_or_empty(e0, unit@) =~= Set::<Seq<char>>::empty());
                        assert(self.enabled_sets() =~= old(self).enabled_sets().insert(unit@, Set::<Seq<char>>::empty().insert(thing@)));
                        assert(table_sets(t0) =~= e0);
                        assert(saved_states(t0, old(self).state_map(), m0));
                    }
                }
                plans.push((unit, p));
            },
            None => {
                let p = self.enable_unit(name, PersistMode::Yes);
                plans.push((owned(name), p));
            },
        }
        (ack("enabled", name), plans)
    }

    /// Disables what a request names: `unit@*` disables the whole unit and
    /// then the component `*`; `unit@component` the component; anything else
    /// the whole unit; all persisted. Acknowledges `disabled <name>`. Gives
    /// the plans, each with the unit it is for.
    pub fn handle_disable(&mut self, name: &str) -> (r: (DaemonReply, Vec<(String, ComponentPlan)>))
        requires
            old(self).wf(),
        ensures
            final(self).wf(),
            final(self).units == old(self).units,
            r.0 matches DaemonReply::Ack(t) && t@ == ack_text("disabled"@, name@),
            final(self).enabled_sets() == match request_target(name@) {
                Some((u, c)) => if c == "*"@ {
                    old(self).enabled_sets().remove(u).insert(u, Set::<Seq<char>>::empty())
                } else {
                    old(self).enabled_sets().insert(
                        u,
                        crate::store::filter_or_empty(old(self).enabled_sets(), u).remove(c),
                    )
                },
                None => old(self).enabled_sets().remove(name@),
            },
            match request_target(name@) {
                Some((u, c)) => if c == "*"@ {
                    &&& r.1@.len() == 2
                    &&& whole_plan(old(self).units@, u, r.1@[0].1)
                    &&& part_plan(old(self).units@, u, c, r.1@[1].1)
                } else {
                    r.1@.len() == 1 && part_plan(old(self).units@, u, c, r.1@[0].1)
                },
                None => r.1@.len() == 1 && whole_plan(old(self).units@, name@, r.1@[0].1),
            },
            forall|t: int| 0 <= t < r.1@.len() ==> (#[trigger] r.1@[t]).0@ == match request_target(name@) {
                Some((u, c)) => u,
                None => name@,
            },
            match request_target(name@) {
                Some((u, c)) => if c == "*"@ {
                    saved_in_turn(
                        old(self).enabled_sets().remove(u),
                        final(self).enabled@,
                        old(self).state_map(),
                        final(self).state_map(),
                    )
                } else {
                    saved_states(final(self).enabled@, old(self).state_map(), final(self).state_map())
                },
                None => saved_states(final(self).enabled@, old(self).state_map(), final(self).state_map()),
            },
    {
        let mut plans: Vec<(String, ComponentPlan)> = Vec::new();
        match split_once_char(name, '@') {
            Some((unit, thing)) => {
                if str_eq(thing.as_str(), "*") {
                    let p = self.disable_unit(unit.as_str(), PersistMode::Yes);
                    plans.push((unit.clone(), p));
                    proof {
                        assert(crate::store::filter_or_empty(self.enabled_sets(), unit@) =~= Set::<Seq<char>>::empty());
                    }
                }
                let ghost e0 = self.enabled_sets();
                let ghost t0 = self.enabled@;
                let ghost m0 = self.state_map();
                let p = self.disable_component(unit.as_str(), thing.as_str(), PersistMode::Yes);
                proof {
                    if thing@ == "*"@ {
                        assert(table_sets(t0) =~= e0);
                        assert(saved_states(t0, old(self).state_map(), m0));
                        assert(e0 =~= old(self).enabled_sets().remove(unit@));
                        assert(crate::store::filter_or_empty(e0, unit@) =~= Set::<Seq<char>>::empty());
                        assert(Set::<Seq<char>>::empty().remove(thing@) =~= Set::<Seq<char>>::empty());
                        assert(self.enabled_sets() =~= old(self).enabled_sets().remove(unit@).insert(unit@, Set::<Seq<char>>::empty()));
                    }
                }
                plans.push((unit, p));
            },
            None => {
                let p = self.disable_unit(name, PersistMode::Yes);
                plans.push((owned(name), p));
            },
        }
        (ack("disabled", name), plans)
    }
}

/// The flag of position `i`, false where there is none.
pub open spec fn flag_at(flags: Seq<bool>, i: int) -> bool {
    if 0 <= i < flags.len() {
        flags[i]
    } else {
        false
    }
}

/// The listing of one unit: its services and mounts, each as listed.
pub open spec fn unit_items_spec(u: Unit, mounted: Seq<bool>, r: UnitItemsSerialized) -> bool {
    &&& r.services@.len() == svc_list(u).len()
    &&& forall|i: int| 0 <= i < svc_list(u).len() ==> service_summary_spec(svc_list(u)[i], #[trigger] r.services@[i])
    &&& r.mounts@.len() == mnt_list(u).len()
    &&& forall|i: int|
        0 <= i < mnt_list(u).len() ==> {
            mount_summary_spec(mnt_list(u)[i], flag_at(mounted, i), #[trigger] r.mounts@[i])
        }
}

fn unit_items(u: &Unit, mounted: &Vec<bool>) -> (r: UnitItemsSerialized)
    ensures
        unit_items_spec(*u, mounted@, r),
{
    let mut services: Vec<ServiceSerialized> = Vec::new();
    match &u.service {
        Some(v) => {
            let mut i: usize = 0;
            while i < v.len()
                invariant
                    i <= v@.len(),
                    services@.len() == i,
                    forall|j: int| 0 <= j < i ==> service_summary_spec(v@[j], #[trigger] services@[j]),
                decreases v@.len() - i,
            {
                services.push(service_summary(&v[i]));
                i = i + 1;
            }
        },
        None => {},
    }
    let mut mounts: Vec<MountSerialized> = Vec::new();
    match &u.mount {
        Some(v) => {
            let mut i: usize = 0;
            while i < v.len()
                invariant
                    i <= v@.len(),
                    mounts@.len() == i,
                    forall|j: int| 0 <= j < i ==> mount_summary_spec(v@[j], flag_at(mounted@, j), #[trigger] mounts@[j]),
                decreases v@.len() - i,
            {
                let flag = if i < mounted.len() {
                    mounted[i]
                } else {
                    false
                };
                mounts.push(mount_summary(&v[i], flag));
                i = i + 1;
            }
        },
        None => {},
    }
    UnitItemsSerialized { mounts, services }
}

/// The reply to a listing: a unit's items, a service, a state (by the name of
/// its definition, with the number of branches stored under that name), or,
/// for any other kind, every unit in table order.
pub open spec fn list_spec(s: Store, unit_type: UnitType, name: Seq<char>, mounted: Seq<bool>, unit_mounted: Seq<Vec<bool>>, r: DaemonReply) -> bool {
    match unit_type {
        UnitType::Unit => if table(s.units@).contains_key(name) {
            r matches DaemonReply::UnitItems(items) && unit_items_spec(table(s.units@)[name], mounted, items)
        } else {
            r matches DaemonReply::Failure(t) && t@ == "Unit not found"@
        },
        UnitType::Service => match service_spec(s.units@, name) {
            Some(x) => r matches DaemonReply::Service(v) && service_summary_spec(x, v),
            None => r matches DaemonReply::Failure(t) && t@ == "Service not found"@,
        },
        UnitType::State => match state_def_spec(s.units@, name) {
            Some(d) => r matches DaemonReply::State(v) && v.name@ == d.name@ && v.instances == crate::engine::branches_or_empty(
                s.state_map(),
                d.name@,
            ).len(),
            None => r matches DaemonReply::Failure(t) && t@ == "Service not found"@,
        },
        _ => r matches DaemonReply::Units(list) && list@.len() == s.units@.len() && forall|t: int|
            0 <= t < s.units@.len() ==> {
                let e = #[trigger] list@[t];
                let u = s.units@[t].value;
                &&& e.name@ == s.units@[t].key@
                &&& e.services == svc_list(u).len()
                &&& e.active_services == active_count(svc_list(u))
                &&& e.mounts == mnt_list(u).len()
                &&& e.mounted == true_count(if t < unit_mounted.len() {
                    unit_mounted[t]@
                } else {
                    Seq::empty()
                })
            },
    }
}

impl Store {
    /// The reply to a listing (see `list_spec`); `mounted` flags the mounts of
    /// a listed unit, `unit_mounted` those of each unit in table order.
    pub fn list_reply(&self, unit_type: UnitType, name: &str, mounted: &Vec<bool>, unit_mounted: &Vec<Vec<bool>>) -> (r: DaemonReply)
        requires
            self.wf(),
        ensures
            list_spec(*self, unit_type, name@, mounted@, unit_mounted@, r),
    {
        match unit_type {
            UnitType::Unit => match self.unit(name) {
                Some(u) => DaemonReply::UnitItems(unit_items(u, mounted)),
                None => DaemonReply::Failure(owned("Unit not found")),
            },
            UnitType::Service => match self.lookup_service(name) {
                Some(x) => DaemonReply::Service(service_summary(x)),
                None => DaemonReply::Failure(owned("Service not found")),
            },
            UnitType::State => match self.lookup_state(name) {
                Some(d) => {
                    let instances = match self.state_branches(d.name.as_str()) {
                        Some(v) => v.len(),
                        None => 0,
                    };
                    DaemonReply::State(StateSerialized { name: d.name.clone(), instances })
                },
                None => DaemonReply::Failure(owned("Service not found")),
            },
            _ => {
                let mut list: Vec<UnitSerialized> = Vec::new();
                let mut t: usize = 0;
                let empty: Vec<bool> = Vec::new();
                while t < self.units.len()
                    invariant
                        t <= self.units@.len(),
                        empty@.len() == 0,
                        list@.len() == t,
                        forall|q: int|
                            0 <= q < t ==> {
                                let e = #[trigger] list@[q];
                                let u = self.units@[q].value;
                                &&& e.name@ == self.units@[q].key@
                                &&& e.services == svc_list(u).len()
                                &&& e.active_services == active_count(svc_list(u))
                                &&& e.mounts == mnt_list(u).len()
                                &&& e.mounted == true_count(if q < unit_mounted@.len() {
                                    unit_mounted@[q]@
                                } else {
                                    Seq::empty()
                                })
                            },
                    decreases self.units@.len() - t,
                {
                    let flags = if t < unit_mounted.len() {
                        &unit_mounted[t]
                    } else {
                        &empty
                    };
                    let e = unit_summary(self.units[t].key.as_str(), &self.units[t].value, flags);
                    match e.as_some() {
                        Some(e) => list.push(e),
                        None => {},
                    }
                    t = t + 1;
                }
                DaemonReply::Units(list)
            },
        }
    }
}

/// How a listed state is shown: active, inactive, failed (a crash or an
/// error), or anything else.
#[derive(Clone, Copy, PartialEq, Eq, Structural, Debug)]
pub enum StateStyle {
    Active,
    Inactive,
    Failed,
    Other,
}

/// Whether `s` begins with `p`.
pub open spec fn starts_with(s: Seq<char>, p: Seq<char>) -> bool {
    p.len() <= s.len() && s.subrange(0, p.len() as int) == p
}

pub open spec fn state_style_spec(s: Seq<char>) -> StateStyle {
    if s == "Active"@ {
        StateStyle::Active
    } else if s == "Inactive"@ {
        StateStyle::Inactive
    } else if starts_with(s, "Crashed"@) || starts_with(s, "Error"@) {
        StateStyle::Failed
    } else {
        StateStyle::Other
    }
}

fn has_prefix(s: &str, p: &str) -> (r: bool)
    ensures
        r == starts_with(s@, p@),
{
    let sv = crate::text::chars_of(s);
    let pv = crate::text::chars_of(p);
    if pv.len() > sv.len() {
        return false;
    }
    let mut i: usize = 0;
    while i < pv.len()
        invariant
            i <= pv@.len() <= sv@.len(),
            sv@ == s@,
            pv@ == p@,
            forall|j: int| 0 <= j < i ==> sv@[j] == pv@[j],
        decreases pv@.len() - i,
    {
        if sv[i] != pv[i] {
            assert(s@.subrange(0, p@.len() as int)[i as int] != p@[i as int]);
            return false;
        }
        i = i + 1;
    }
    assert(s@.subrange(0, p@.len() as int) =~= p@);
    true
}

/// How a listed state is shown (see `state_style_spec`).
pub fn state_style(last_state: &str) -> (r: StateStyle)
    ensures
        r == state_style_spec(last_state@),
{
    if str_eq(last_state, "Active") {
        StateStyle::Active
    } else if str_eq(last_state, "Inactive") {
        StateStyle::Inactive
    } else if has_prefix(last_state, "Crashed") || has_prefix(last_state, "Error") {
        StateStyle::Failed
    } else {
        StateStyle::Other
    }
}

} // verus!
