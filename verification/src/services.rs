//! Services: what a service is, and the decisions taken about services when
//! they start, exit, depend on each other, or branch with a state.
use crate::flow::{FlowInstance, FlowItem, FlowPayload, Trigger, json_of_text};
use crate::json::{JsonModel, json_get, json_text, json_to_string};
use crate::name::Name;
use crate::text::{chars_of, concat, owned, string_from_range, str_eq};
use crate::transport::TransportMethod;
use crate::triggers::{FlowChangeAction, check_condition, condition_spec};
use std::collections::HashMap;
use vstd::prelude::*;

verus! {

/// The state of a service or of a branch instance.
pub enum ServiceState {
    Active,
    Inactive,
    Starting,
    Stopping,
    Exited(i32),
    Error(String),
}

pub open spec fn same_state(a: ServiceState, b: ServiceState) -> bool {
    match (a, b) {
        (ServiceState::Active, ServiceState::Active) => true,
        (ServiceState::Inactive, ServiceState::Inactive) => true,
        (ServiceState::Starting, ServiceState::Starting) => true,
        (ServiceState::Stopping, ServiceState::Stopping) => true,
        (ServiceState::Exited(x), ServiceState::Exited(y)) => x == y,
        (ServiceState::Error(x), ServiceState::Error(y)) => x@ == y@,
        _ => false,
    }
}

impl PartialEq for ServiceState {
    fn eq(&self, other: &Self) -> (r: bool) {
        match (self, other) {
            (ServiceState::Active, ServiceState::Active) => true,
            (ServiceState::Inactive, ServiceState::Inactive) => true,
            (ServiceState::Starting, ServiceState::Starting) => true,
            (ServiceState::Stopping, ServiceState::Stopping) => true,
            (ServiceState::Exited(x), ServiceState::Exited(y)) => *x == *y,
            (ServiceState::Error(x), ServiceState::Error(y)) => *x == *y,
            _ => false,
        }
    }
}

impl vstd::std_specs::cmp::PartialEqSpecImpl for ServiceState {
    open spec fn obeys_eq_spec() -> bool {
        true
    }

    open spec fn eq_spec(&self, other: &Self) -> bool {
        same_state(*self, *other)
    }
}

impl Eq for ServiceState {

}

impl Default for ServiceState {
    fn default() -> (r: Self)
        ensures
            r is Inactive,
    {
        ServiceState::Inactive
    }
}

/// Whether a service restarts after it exits.
pub enum RestartPolicy {
    Bool(bool),
    OnFailure { max_retries: u32 },
}

impl Default for RestartPolicy {
    fn default() -> (r: Self)
        ensures
            r == RestartPolicy::Bool(false),
    {
        RestartPolicy::Bool(false)
    }
}

/// How a service is stopped: with `SIGTERM` or `SIGKILL`.
#[derive(Clone, Copy, PartialEq, Eq, Structural, Debug)]
pub enum StopMode {
    Graceful,
    ForceKill,
}

/// The identity of a service within the running system.
#[derive(Clone, Copy, PartialEq, Eq, Structural, Hash, Debug)]
pub struct ServiceId(pub u64);

/// One running copy of a branching service, for one branch key.
pub struct BranchServiceInstance {
    pub key: String,
    pub pid: Option<u32>,
    pub state: ServiceState,
    pub retry_count: u32,
}

/// How a service branches with a state: one instance per branch key.
pub struct BranchingConfig {
    pub enabled: bool,
    pub source_state: String,
    pub key: Option<String>,
    pub max_instances: Option<usize>,
}

impl BranchingConfig {
    /// Branching off, no source state, keyed by `id`, at most 64 instances.
    pub fn default() -> (r: Self)
        ensures
            !r.enabled,
            r.source_state@.len() == 0,
            r.key matches Some(k) && k@ == "id"@,
            r.max_instances == Some(64usize),
    {
        BranchingConfig { enabled: false, source_state: String::new(), key: Some(owned("id")), max_instances: Some(64) }
    }
}

/// A service. The process handles of a running service are held by the
/// supervisor; the service keeps the process id.
pub struct Service {
    pub id: ServiceId,
    pub unit: Name,
    pub name: String,
    pub executable: String,
    pub args: Vec<String>,
    pub env: Option<HashMap<String, String>>,
    pub after: Option<Vec<String>>,
    pub start_on: Option<Vec<FlowItem>>,
    pub stop_on: Option<Vec<FlowItem>>,
    pub on_start: Option<Vec<Trigger>>,
    pub on_stop: Option<Vec<Trigger>>,
    pub transport: Option<TransportMethod>,
    pub branching: Option<BranchingConfig>,
    pub restart: RestartPolicy,
    pub pid: Option<u32>,
    pub state: ServiceState,
    pub retry_count: u32,
    pub manually_stopped: bool,
    pub branch_instances: Vec<BranchServiceInstance>,
}

/// What follows a service's exit: stop the services that depend on it, or
/// restart it (counting a retry for `OnFailure`).
#[derive(Clone, Copy, PartialEq, Eq, Structural, Debug)]
pub enum ExitAction {
    StopDependents,
    Restart { count_retry: bool },
}

/// The rule of `handle_exit`: a service stopped by hand, or one that does not
/// restart, takes its dependents down; `Bool(true)` restarts always;
/// `OnFailure` restarts after a non-zero exit while retries are left.
pub open spec fn exit_action_spec(policy: RestartPolicy, code: i32, manually_stopped: bool, retry_count: u32) -> ExitAction {
    if manually_stopped {
        ExitAction::StopDependents
    } else {
        match policy {
            RestartPolicy::Bool(false) => ExitAction::StopDependents,
            RestartPolicy::Bool(true) => ExitAction::Restart { count_retry: false },
            RestartPolicy::OnFailure { max_retries } => if code != 0 && max_retries > 0 && retry_count
                < max_retries {
                ExitAction::Restart { count_retry: true }
            } else {
                ExitAction::StopDependents
            },
        }
    }
}

/// A service stopped by hand is never restarted, whatever its policy, its
/// exit code and its retries.
pub proof fn law_manual_stop_never_restarts(policy: RestartPolicy, code: i32, retry_count: u32)
    ensures
        exit_action_spec(policy, code, true, retry_count) == ExitAction::StopDependents,
{
}

/// `OnFailure` restarts exactly after a failed exit of a service not stopped
/// by hand while fewer retries than its limit were made, and counts each such
/// restart: never after a clean exit, never once the retries are used up.
pub proof fn law_on_failure_restarts(max_retries: u32, code: i32, manually_stopped: bool, retry_count: u32)
    ensures
        exit_action_spec(RestartPolicy::OnFailure { max_retries }, code, manually_stopped, retry_count) == if !manually_stopped
            && code != 0 && retry_count < max_retries {
            ExitAction::Restart { count_retry: true }
        } else {
            ExitAction::StopDependents
        },
{
}

/// `Bool(false)` never restarts; `Bool(true)` restarts every service not
/// stopped by hand, whatever its exit code, without counting retries.
pub proof fn law_bool_policy_restarts(restart: bool, code: i32, manually_stopped: bool, retry_count: u32)
    ensures
        exit_action_spec(RestartPolicy::Bool(restart), code, manually_stopped, retry_count) == if restart && !manually_stopped {
            ExitAction::Restart { count_retry: false }
        } else {
            ExitAction::StopDependents
        },
{
}

/// Decides what follows a service's exit (see `exit_action_spec`).
pub fn exit_action(policy: &RestartPolicy, code: i32, manually_stopped: bool, retry_count: u32) -> (r: ExitAction)
    ensures
        r == exit_action_spec(*policy, code, manually_stopped, retry_count),
        manually_stopped ==> r == ExitAction::StopDependents,
        r is Restart ==> !manually_stopped,
{
    if manually_stopped {
        return ExitAction::StopDependents;
    }
    match policy {
        RestartPolicy::Bool(false) => ExitAction::StopDependents,
        RestartPolicy::Bool(true) => ExitAction::Restart { count_retry: false },
        RestartPolicy::OnFailure { max_retries } => {
            if code != 0 && *max_retries > 0 && retry_count < *max_retries {
                ExitAction::Restart { count_retry: true }
            } else {
                ExitAction::StopDependents
            }
        },
    }
}

/// What the exit of a process asks of the supervisor: the services to restart
/// and the names whose dependents are to be stopped.
pub struct ExitPlan {
    pub restart: Vec<ServiceId>,
    pub stop_dependents_of: Vec<String>,
}

/// A branch instance after the exit of process `pid` with `code`.
pub open spec fn branch_after_exit(o: BranchServiceInstance, n: BranchServiceInstance, pid: u32, code: i32) -> bool {
    &&& n.key == o.key
    &&& n.retry_count == o.retry_count
    &&& if o.pid == Some(pid) {
        n.state == ServiceState::Exited(code) && n.pid is None
    } else {
        n.state == o.state && n.pid == o.pid
    }
}

/// Whether the exit of `pid` with `code` restarts the service `s`.
pub open spec fn restarts_after(s: Service, pid: u32, code: i32) -> bool {
    s.pid == Some(pid) && exit_action_spec(s.restart, code, s.manually_stopped, s.retry_count) is Restart
}

/// Whether the exit of `pid` with `code` takes down the dependents of `s`.
pub open spec fn stops_dependents_after(s: Service, pid: u32, code: i32) -> bool {
    s.pid == Some(pid) && exit_action_spec(s.restart, code, s.manually_stopped, s.retry_count) is StopDependents
}

/// A service after the exit of process `pid` with `code`: the service that ran
/// it is `Exited(code)` with no process and counts a retry where `OnFailure`
/// restarts it; its branch instances are updated the same way.
pub open spec fn service_after_exit(o: Service, n: Service, pid: u32, code: i32) -> bool {
    &&& n.name == o.name
    &&& n.id == o.id
    &&& n.unit == o.unit
    &&& n.after == o.after
    &&& n.restart == o.restart
    &&& n.manually_stopped == o.manually_stopped
    &&& n.branching == o.branching
    &&& if o.pid == Some(pid) {
        &&& n.state == ServiceState::Exited(code)
        &&& n.pid is None
        &&& n.retry_count == if exit_action_spec(o.restart, code, o.manually_stopped, o.retry_count) == (
        ExitAction::Restart { count_retry: true }) {
            o.retry_count + 1
        } else {
            o.retry_count as int
        }
    } else {
        n.state == o.state && n.pid == o.pid && n.retry_count == o.retry_count
    }
    &&& n.branch_instances@.len() == o.branch_instances@.len()
    &&& forall|j: int|
        0 <= j < o.branch_instances@.len() ==> branch_after_exit(
            #[trigger] o.branch_instances@[j],
            n.branch_instances@[j],
            pid,
            code,
        )
}

/// The ids of the services that the exit restarts, in order.
pub open spec fn restart_ids(s: Seq<Service>, pid: u32, code: i32) -> Seq<ServiceId>
    decreases s.len(),
{
    if s.len() == 0 {
        Seq::empty()
    } else {
        let rest = restart_ids(s.drop_last(), pid, code);
        if restarts_after(s.last(), pid, code) {
            rest.push(s.last().id)
        } else {
            rest
        }
    }
}

/// The names of the services whose dependents the exit stops, in order.
pub open spec fn stop_names(s: Seq<Service>, pid: u32, code: i32) -> Seq<Seq<char>>
    decreases s.len(),
{
    if s.len() == 0 {
        Seq::empty()
    } else {
        let rest = stop_names(s.drop_last(), pid, code);
        if stops_dependents_after(s.last(), pid, code) {
            rest.push(s.last().name@)
        } else {
            rest
        }
    }
}

fn exit_branch_instances(insts: &mut Vec<BranchServiceInstance>, pid: u32, code: i32)
    ensures
        final(insts)@.len() == old(insts)@.len(),
        forall|j: int|
            0 <= j < old(insts)@.len() ==> branch_after_exit(#[trigger] old(insts)@[j], final(insts)@[j], pid, code),
{
    let ghost before = insts@;
    let mut j: usize = 0;
    let m = insts.len();
    while j < m
        invariant
            m == insts@.len(),
            m == before.len(),
            j <= m,
            forall|t: int| j <= t < m ==> insts@[t] == before[t],
            forall|t: int| 0 <= t < j ==> branch_after_exit(#[trigger] before[t], insts@[t], pid, code),
        decreases m - j,
    {
        let mut inst = insts.remove(j);
        if inst.pid == Some(pid) {
            inst.state = ServiceState::Exited(code);
            inst.pid = None;
        }
        insts.insert(j, inst);
        j = j + 1;
    }
}

fn exit_one(svc: &mut Service, pid: u32, code: i32) -> (r: Option<ExitAction>)
    ensures
        service_after_exit(*old(svc), *final(svc), pid, code),
        r == if old(svc).pid == Some(pid) {
            Some(exit_action_spec(old(svc).restart, code, old(svc).manually_stopped, old(svc).retry_count))
        } else {
            None::<ExitAction>
        },
{
    let mut r: Option<ExitAction> = None;
    if svc.pid == Some(pid) {
        svc.state = ServiceState::Exited(code);
        svc.pid = None;
        let action = exit_action(&svc.restart, code, svc.manually_stopped, svc.retry_count);
        if action == (ExitAction::Restart { count_retry: true }) {
            svc.retry_count = svc.retry_count + 1;
        }
        r = Some(action);
    }
    exit_branch_instances(&mut svc.branch_instances, pid, code);
    r
}

/// Records the exit of process `pid` in the services (the first pass of
/// `handle_exit`): the service running it becomes `Exited(code)` without a
/// process and is listed for a restart or for stopping its dependents; branch
/// instances running it become `Exited(code)` without a process.
pub fn record_exit(services: &mut Vec<Service>, pid: u32, code: i32) -> (plan: ExitPlan)
    ensures
        final(services)@.len() == old(services)@.len(),
        forall|i: int|
            0 <= i < old(services)@.len() ==> service_after_exit(
                #[trigger] old(services)@[i],
                final(services)@[i],
                pid,
                code,
            ),
        plan.restart@ == restart_ids(old(services)@, pid, code),
        plan.stop_dependents_of@.map_values(|s: String| s@) == stop_names(old(services)@, pid, code),
{
    let ghost olds = services@;
    let mut restart: Vec<ServiceId> = Vec::new();
    let mut stop: Vec<String> = Vec::new();
    let mut i: usize = 0;
    let n = services.len();
    while i < n
        invariant
            n == services@.len(),
            n == olds.len(),
            i <= n,
            forall|t: int| i <= t < n ==> services@[t] == olds[t],
            forall|t: int| 0 <= t < i ==> service_after_exit(#[trigger] olds[t], services@[t], pid, code),
            restart@ == restart_ids(olds.take(i as int), pid, code),
            stop@.map_values(|s: String| s@) == stop_names(olds.take(i as int), pid, code),
        decreases n - i,
    {
        let mut svc = services.remove(i);
        let ghost o = svc;
        let ghost s0 = stop@;
        assert(olds.take(i + 1).drop_last() =~= olds.take(i as int));
        assert(olds.take(i + 1).last() == o);
        let action = exit_one(&mut svc, pid, code);
        match action {
            Some(ExitAction::StopDependents) => {
                stop.push(svc.name.clone());
                assert(stop@.map_values(|s: String| s@) =~= s0.map_values(|s: String| s@).push(o.name@));
            },
            Some(ExitAction::Restart { .. }) => {
                restart.push(svc.id);
            },
            None => {},
        }
        services.insert(i, svc);
        i = i + 1;
    }
    assert(olds.take(n as int) =~= olds);
    ExitPlan { restart, stop_dependents_of: stop }
}

/// Whether a service may be started by a dependency: it is inactive or exited cleanly.
pub open spec fn startable(st: ServiceState) -> bool {
    st is Inactive || st == ServiceState::Exited(0)
}

/// Whether a service is stopped with what it depends on: it is active or starting.
pub open spec fn stoppable(st: ServiceState) -> bool {
    st is Active || st is Starting
}

pub fn is_startable(st: &ServiceState) -> (r: bool)
    ensures
        r == startable(*st),
{
    match st {
        ServiceState::Inactive => true,
        ServiceState::Exited(c) => *c == 0,
        _ => false,
    }
}

pub fn is_stoppable(st: &ServiceState) -> (r: bool)
    ensures
        r == stoppable(*st),
{
    match st {
        ServiceState::Active => true,
        ServiceState::Starting => true,
        _ => false,
    }
}

/// The signal a stop sends.
#[derive(Clone, Copy, PartialEq, Eq, Structural, Debug)]
pub enum StopSignal {
    Term,
    Kill,
}

/// A signal to send to the process group of `pid`.
#[derive(Clone, Copy, PartialEq, Eq, Structural, Debug)]
pub struct KillRequest {
    pub pid: u32,
    pub signal: StopSignal,
}

pub open spec fn signal_for(mode: StopMode) -> StopSignal {
    if mode == StopMode::ForceKill {
        StopSignal::Kill
    } else {
        StopSignal::Term
    }
}

/// A branch instance after a stop: a running one is `Stopping` and signalled,
/// another is `Inactive`.
pub open spec fn branch_stopped(o: BranchServiceInstance, n: BranchServiceInstance) -> bool {
    &&& n.key == o.key
    &&& n.pid == o.pid
    &&& n.retry_count == o.retry_count
    &&& n.state == if o.pid is Some {
        ServiceState::Stopping
    } else {
        ServiceState::Inactive
    }
}

/// The signals a stop sends to the running branch instances, in order.
pub open spec fn branch_kills(bs: Seq<BranchServiceInstance>, sig: StopSignal) -> Seq<KillRequest>
    decreases bs.len(),
{
    if bs.len() == 0 {
        Seq::empty()
    } else {
        let r = branch_kills(bs.drop_last(), sig);
        match bs.last().pid {
            Some(p) => r.push(KillRequest { pid: p, signal: sig }),
            None => r,
        }
    }
}

/// Stops a service: it becomes `Stopping`, and its process is signalled and
/// the stop recorded as manual; without a process it becomes `Inactive`. Its
/// branch instances are stopped the same way. Gives the signals to send: the
/// service's first, then those of its branch instances.
pub fn stop_service(service: &mut Service, mode: StopMode) -> (kills: Vec<KillRequest>)
    ensures
        final(service).state == if old(service).pid is Some {
            ServiceState::Stopping
        } else {
            ServiceState::Inactive
        },
        final(service).manually_stopped == (old(service).manually_stopped || old(service).pid is Some),
        *final(service) == (Service {
            state: final(service).state,
            manually_stopped: final(service).manually_stopped,
            branch_instances: final(service).branch_instances,
            ..*old(service)
        }),
        final(service).branch_instances@.len() == old(service).branch_instances@.len(),
        forall|j: int|
            0 <= j < old(service).branch_instances@.len() ==> branch_stopped(
                #[trigger] old(service).branch_instances@[j],
                final(service).branch_instances@[j],
            ),
        kills@ == match old(service).pid {
            Some(p) => seq![KillRequest { pid: p, signal: signal_for(mode) }],
            None => Seq::empty(),
        } + branch_kills(old(service).branch_instances@, signal_for(mode)),
{
    let sig = if mode == StopMode::ForceKill {
        StopSignal::Kill
    } else {
        StopSignal::Term
    };
    let mut kills: Vec<KillRequest> = Vec::new();
    service.state = ServiceState::Stopping;
    match service.pid {
        Some(p) => {
            kills.push(KillRequest { pid: p, signal: sig });
            service.manually_stopped = true;
        },
        None => {
            service.state = ServiceState::Inactive;
        },
    }
    let ghost k0 = kills@;
    let ghost before = service.branch_instances@;
    let mut insts: Vec<BranchServiceInstance> = Vec::new();
    std::mem::swap(&mut insts, &mut service.branch_instances);
    let n = insts.len();
    let mut j: usize = 0;
    while j < n
        invariant
            n == insts@.len(),
            n == before.len(),
            j <= n,
            forall|t: int| j <= t < n ==> insts@[t] == before[t],
            forall|t: int| 0 <= t < j ==> branch_stopped(#[trigger] before[t], insts@[t]),
            kills@ == k0 + branch_kills(before.subrange(0, j as int), sig),
        decreases n - j,
    {
        let mut inst = insts.remove(j);
        assert(before.subrange(0, j + 1).drop_last() =~= before.subrange(0, j as int));
        match inst.pid {
            Some(p) => {
                kills.push(KillRequest { pid: p, signal: sig });
                inst.state = ServiceState::Stopping;
            },
            None => {
                inst.state = ServiceState::Inactive;
            },
        }
        insts.insert(j, inst);
        j = j + 1;
    }
    assert(before.subrange(0, n as int) =~= before);
    service.branch_instances = insts;
    kills
}

/// The start of a service begins: it becomes `Starting` (its process is
/// then spawned by the supervisor).
pub fn begin_start(service: &mut Service)
    ensures
        *final(service) == (Service { state: ServiceState::Starting, ..*old(service) }),
{
    service.state = ServiceState::Starting;
}

/// The start of a service ends: with the process id of the spawned process
/// it is `Active`; with the spawn error it is `Error` with the message
/// `Failed to start service "<name>": <error>`.
pub fn finish_start(service: &mut Service, spawned: Result<u32, String>)
    ensures
        match spawned {
            Ok(pid) => *final(service) == (Service { state: ServiceState::Active, pid: Some(pid), ..*old(service) }),
            Err(e) => {
                &&& *final(service) == (Service { state: final(service).state, ..*old(service) })
                &&& final(service).state matches ServiceState::Error(m) && m@ == "Failed to start service \""@
                    + old(service).name@ + "\": "@ + e@
            },
        },
{
    match spawned {
        Ok(pid) => {
            service.pid = Some(pid);
            service.state = ServiceState::Active;
        },
        Err(e) => {
            let a = concat("Failed to start service \"", service.name.as_str());
            let b = concat(a.as_str(), "\": ");
            let m = concat(b.as_str(), e.as_str());
            service.state = ServiceState::Error(m);
        },
    }
}

/// The branch key of a payload: of a JSON payload, the member `key` (or
/// `id`) as JSON text without surrounding quotes; a string payload is its own
/// key; others have none.
pub open spec fn branch_key_of(p: FlowPayload, key: Option<Seq<char>>) -> Option<Seq<char>> {
    match p {
        FlowPayload::Json(_) => match crate::flow::payload_field(
            p,
            match key {
                Some(k) => k,
                None => "id"@,
            },
        ) {
            Some(m) => Some(trim_quotes_spec(json_text(m))),
            None => None,
        },
        FlowPayload::String(s) => Some(s@),
        _ => None,
    }
}

/// `s` without leading and trailing `"` (`str::trim_matches('"')`).
pub open spec fn trim_quotes_spec(s: Seq<char>) -> Seq<char>
    decreases s.len(),
{
    if s.len() > 0 && s[0] == '"' {
        trim_quotes_spec(s.drop_first())
    } else if s.len() > 0 && s.last() == '"' {
        trim_quotes_spec(s.drop_last())
    } else {
        s
    }
}

proof fn lemma_trim_quotes(s: Seq<char>, i: int, k: int)
    requires
        0 <= i <= k <= s.len(),
        forall|t: int| 0 <= t < i ==> s[t] == '"',
        forall|t: int| k <= t < s.len() ==> s[t] == '"',
        i < k ==> s[i] != '"' && s[k - 1] != '"',
        i == k ==> forall|t: int| 0 <= t < s.len() ==> s[t] == '"',
    ensures
        trim_quotes_spec(s) == s.subrange(i, k),
    decreases s.len(),
{
    if s.len() > 0 && s[0] == '"' {
        if i > 0 {
            lemma_trim_quotes(s.drop_first(), i - 1, k - 1);
            assert(s.drop_first().subrange(i - 1, k - 1) =~= s.subrange(i, k));
        } else {
            if i == k {
                lemma_trim_quotes(s.drop_first(), 0, 0);
                assert(s.drop_first().subrange(0, 0) =~= s.subrange(i, k));
            }
        }
    } else if s.len() > 0 && s.last() == '"' {
        if k < s.len() {
            lemma_trim_quotes(s.drop_last(), i, k);
            assert(s.drop_last().subrange(i, k) =~= s.subrange(i, k));
        } else {
            assert(s[s.len() - 1] == s.last());
            if i == k {
                assert(s[0] == '"');
            }
        }
    } else {
        if s.len() > 0 {
            if i > 0 {
                assert(s[0] == '"');
            }
            if k < s.len() {
                assert(s[s.len() - 1] == '"');
            }
        } else {
            assert(s.subrange(i, k) =~= s);
        }
        if s.len() > 0 && i == k {
            assert(s[0] == '"');
        }
        assert(s.subrange(i, k) =~= s);
    }
}

/// `str::trim_matches('"')`.
pub fn trim_quotes(s: &str) -> (r: String)
    ensures
        r@ == trim_quotes_spec(s@),
{
    let v = chars_of(s);
    let n = v.len();
    let mut i: usize = 0;
    while i < n && v[i] == '"'
        invariant
            n == v@.len(),
            v@ == s@,
            i <= n,
            forall|t: int| 0 <= t < i ==> v@[t] == '"',
        decreases n - i,
    {
        i = i + 1;
    }
    let mut k: usize = n;
    while k > i && v[k - 1] == '"'
        invariant
            n == v@.len(),
            v@ == s@,
            i <= k <= n,
            forall|t: int| k <= t < n ==> v@[t] == '"',
        decreases k - i,
    {
        k = k - 1;
    }
    proof {
        if i == k {
            assert forall|t: int| 0 <= t < s@.len() implies s@[t] == '"' by {
                if t >= i {
                    assert(v@[t] == '"');
                }
            }
        }
        lemma_trim_quotes(s@, i as int, k as int);
    }
    string_from_range(&v, i, k)
}

/// The branch key of a payload (see `branch_key_of`).
pub fn payload_branch_key(payload: &FlowPayload, branch_key: Option<&str>) -> (r: Option<String>)
    ensures
        match r {
            Some(k) => branch_key_of(
                *payload,
                match branch_key {
                    Some(b) => Some(b@),
                    None => None,
                },
            ) == Some(k@),
            None => branch_key_of(
                *payload,
                match branch_key {
                    Some(b) => Some(b@),
                    None => None,
                },
            ) is None,
        },
{
    match payload {
        FlowPayload::Json(_) => {
            let key = match branch_key {
                Some(k) => k,
                None => "id",
            };
            match payload.get_json_field(key) {
                Some(v) => {
                    let t = json_to_string(&v);
                    Some(trim_quotes(t.as_str()))
                },
                None => None,
            }
        },
        FlowPayload::String(s) => Some(s.clone()),
        _ => None,
    }
}

/// What a branch start or stop asks of the supervisor.
#[derive(Clone, Copy, PartialEq, Eq, Structural, Debug)]
pub enum BranchStart {
    /// An instance with this key runs already.
    Exists,
    /// The service has as many instances as it may.
    LimitReached { max: usize },
    /// An instance is to be spawned.
    Spawn,
}

/// Whether a branch instance for `key` is to be spawned: not where one has the
/// key, nor where the service has reached its limit (`max_instances`, 64 by default).
pub open spec fn branch_start_spec(service: Service, key: Seq<char>) -> BranchStart {
    if exists|j: int| 0 <= j < service.branch_instances@.len() && (#[trigger] service.branch_instances@[j]).key@ == key {
        BranchStart::Exists
    } else {
        match service.branching {
            Some(b) => {
                let max = match b.max_instances {
                    Some(m) => m,
                    None => 64usize,
                };
                if service.branch_instances@.len() >= max {
                    BranchStart::LimitReached { max }
                } else {
                    BranchStart::Spawn
                }
            },
            None => BranchStart::Spawn,
        }
    }
}

/// Decides a branch start (see `branch_start_spec`).
pub fn branch_start(service: &Service, key: &str) -> (r: BranchStart)
    ensures
        r == branch_start_spec(*service, key@),
{
    let mut j: usize = 0;
    while j < service.branch_instances.len()
        invariant
            j <= service.branch_instances@.len(),
            forall|t: int| 0 <= t < j ==> (#[trigger] service.branch_instances@[t]).key@ != key@,
        decreases service.branch_instances@.len() - j,
    {
        if str_eq(service.branch_instances[j].key.as_str(), key) {
            return BranchStart::Exists;
        }
        j = j + 1;
    }
    match &service.branching {
        Some(b) => {
            let max = match b.max_instances {
                Some(m) => m,
                None => 64,
            };
            if service.branch_instances.len() >= max {
                BranchStart::LimitReached { max }
            } else {
                BranchStart::Spawn
            }
        },
        None => BranchStart::Spawn,
    }
}

/// Records a spawned branch instance: `Active` with its process, no retries.
pub fn add_branch_instance(service: &mut Service, key: &str, pid: u32)
    ensures
        final(service).branch_instances@.len() == old(service).branch_instances@.len() + 1,
        final(service).branch_instances@.subrange(0, old(service).branch_instances@.len() as int) == old(service).branch_instances@,
        ({
            let b = final(service).branch_instances@.last();
            &&& b.key@ == key@
            &&& b.pid == Some(pid)
            &&& b.state == ServiceState::Active
            &&& b.retry_count == 0
        }),
        *final(service) == (Service { branch_instances: final(service).branch_instances, ..*old(service) }),
        branch_keys_unique(old(service).branch_instances@) && branch_start_spec(*old(service), key@) == BranchStart::Spawn
            ==> branch_keys_unique(final(service).branch_instances@),
{
    service.branch_instances.push(BranchServiceInstance { key: owned(key), pid: Some(pid), state: ServiceState::Active, retry_count: 0 });
    proof {
        assert(service.branch_instances@.subrange(0, old(service).branch_instances@.len() as int) =~= old(service).branch_instances@);
        if branch_keys_unique(old(service).branch_instances@) && branch_start_spec(*old(service), key@) == BranchStart::Spawn {
            lemma_spawn_keeps_keys_unique(old(service).branch_instances@, service.branch_instances@, *old(service), key@);
        }
    }
}

/// No two branch instances of a service share a key.
pub open spec fn branch_keys_unique(bs: Seq<BranchServiceInstance>) -> bool {
    forall|a: int, b: int| 0 <= a < bs.len() && 0 <= b < bs.len() && a != b ==> (#[trigger] bs[a]).key@ != (#[trigger] bs[b]).key@
}

/// A service runs one instance per branch key: recording an instance where
/// `branch_start` decided to spawn one (see `add_branch_instance`) keeps the
/// keys of its instances distinct.
pub proof fn lemma_spawn_keeps_keys_unique(before: Seq<BranchServiceInstance>, after: Seq<BranchServiceInstance>, x: Service, key: Seq<char>)
    requires
        x.branch_instances@ == before,
        branch_keys_unique(before),
        branch_start_spec(x, key) == BranchStart::Spawn,
        after.len() == before.len() + 1,
        after.subrange(0, before.len() as int) == before,
        after.last().key@ == key,
    ensures
        branch_keys_unique(after),
{
    assert forall|a: int, b: int| 0 <= a < after.len() && 0 <= b < after.len() && a != b implies (#[trigger] after[a]).key@ != (#[trigger] after[b]).key@ by {
        if a < before.len() && b < before.len() {
            assert(after[a] == after.subrange(0, before.len() as int)[a]);
            assert(after[b] == after.subrange(0, before.len() as int)[b]);
        } else if a < before.len() {
            assert(after[a] == after.subrange(0, before.len() as int)[a]);
            assert(before[a].key@ != key);
        } else {
            assert(after[b] == after.subrange(0, before.len() as int)[b]);
            assert(before[b].key@ != key);
        }
    }
}

/// Stops the branch instance `key`, if there is one: it is signalled where it
/// runs and becomes `Stopping`. Gives the signal to send.
pub fn stop_branch_instance(service: &mut Service, key: &str, force: bool) -> (kill: Option<KillRequest>)
    ensures
        final(service).branch_instances@.len() == old(service).branch_instances@.len(),
        *final(service) == (Service { branch_instances: final(service).branch_instances, ..*old(service) }),
        match first_branch(old(service).branch_instances@, key@) {
            Some(j) => {
                &&& final(service).branch_instances@ == old(service).branch_instances@.update(
                    j,
                    BranchServiceInstance { state: ServiceState::Stopping, ..old(service).branch_instances@[j] },
                )
                &&& kill == match old(service).branch_instances@[j].pid {
                    Some(p) => Some(KillRequest { pid: p, signal: if force { StopSignal::Kill } else { StopSignal::Term } }),
                    None => None,
                }
            },
            None => final(service).branch_instances@ == old(service).branch_instances@ && kill is None,
        },
{
    let mut j: usize = 0;
    while j < service.branch_instances.len()
        invariant
            j <= service.branch_instances@.len(),
            service.branch_instances@ == old(service).branch_instances@,
            *service == *old(service),
            forall|t: int| 0 <= t < j ==> (#[trigger] service.branch_instances@[t]).key@ != key@,
        decreases service.branch_instances@.len() - j,
    {
        if str_eq(service.branch_instances[j].key.as_str(), key) {
            proof {
                lemma_first_branch(old(service).branch_instances@, key@, j as int);
            }
            let mut inst = service.branch_instances.remove(j);
            let kill = match inst.pid {
                Some(p) => Some(KillRequest { pid: p, signal: if force { StopSignal::Kill } else { StopSignal::Term } }),
                None => None,
            };
            inst.state = ServiceState::Stopping;
            service.branch_instances.insert(j, inst);
            return kill;
        }
        j = j + 1;
    }
    proof {
        lemma_first_branch_none(old(service).branch_instances@, key@);
    }
    None
}

/// The first instance with the key (a map holds one per key).
pub open spec fn first_branch(bs: Seq<BranchServiceInstance>, key: Seq<char>) -> Option<int> {
    if exists|j: int| 0 <= j < bs.len() && (#[trigger] bs[j]).key@ == key {
        Some(choose|j: int| 0 <= j < bs.len() && bs[j].key@ == key && forall|t: int| 0 <= t < j ==> (#[trigger] bs[t]).key@ != key)
    } else {
        None
    }
}

proof fn lemma_first_branch(bs: Seq<BranchServiceInstance>, key: Seq<char>, j: int)
    requires
        0 <= j < bs.len(),
        bs[j].key@ == key,
        forall|t: int| 0 <= t < j ==> (#[trigger] bs[t]).key@ != key,
    ensures
        first_branch(bs, key) == Some(j),
{
    let c = choose|c: int| 0 <= c < bs.len() && bs[c].key@ == key && forall|t: int| 0 <= t < c ==> (#[trigger] bs[t]).key@ != key;
    assert(0 <= c < bs.len() && bs[c].key@ == key && forall|t: int| 0 <= t < c ==> (#[trigger] bs[t]).key@ != key);
    if c < j {
        assert(bs[c].key@ != key);
    }
    if j < c {
        assert(bs[j].key@ != key);
    }
}

proof fn lemma_first_branch_none(bs: Seq<BranchServiceInstance>, key: Seq<char>)
    requires
        forall|t: int| 0 <= t < bs.len() ==> (#[trigger] bs[t]).key@ != key,
    ensures
        first_branch(bs, key) is None,
{
}

/// Stops every branch instance of a service: each becomes `Stopping`, and
/// those that run are signalled with `SIGTERM`. Gives the signals to send.
pub fn stop_all_branches(service: &mut Service) -> (kills: Vec<KillRequest>)
    ensures
        *final(service) == (Service { branch_instances: final(service).branch_instances, ..*old(service) }),
        final(service).branch_instances@.len() == old(service).branch_instances@.len(),
        forall|j: int|
            0 <= j < old(service).branch_instances@.len() ==> #[trigger] final(service).branch_instances@[j] == (
            BranchServiceInstance { state: ServiceState::Stopping, ..old(service).branch_instances@[j] }),
        kills@ == branch_kills(old(service).branch_instances@, StopSignal::Term),
{
    let ghost before = service.branch_instances@;
    let mut insts: Vec<BranchServiceInstance> = Vec::new();
    std::mem::swap(&mut insts, &mut service.branch_instances);
    let mut kills: Vec<KillRequest> = Vec::new();
    let n = insts.len();
    let mut j: usize = 0;
    while j < n
        invariant
            n == insts@.len(),
            n == before.len(),
            j <= n,
            forall|t: int| j <= t < n ==> insts@[t] == before[t],
            forall|t: int| 0 <= t < j ==> #[trigger] insts@[t] == (BranchServiceInstance { state: ServiceState::Stopping, ..before[t] }),
            kills@ == branch_kills(before.subrange(0, j as int), StopSignal::Term),
        decreases n - j,
    {
        let mut inst = insts.remove(j);
        assert(before.subrange(0, j + 1).drop_last() =~= before.subrange(0, j as int));
        match inst.pid {
            Some(p) => {
                kills.push(KillRequest { pid: p, signal: StopSignal::Term });
            },
            None => {},
        }
        inst.state = ServiceState::Stopping;
        insts.insert(j, inst);
        j = j + 1;
    }
    assert(before.subrange(0, n as int) =~= before);
    service.branch_instances = insts;
    kills
}

} // verus!
