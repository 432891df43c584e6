//! Units: the services, mounts, states and signals declared in one unit file,
//! with the index that finds a component by kind and name.
use crate::flow::{SignalDefinition, StateDefinition};
use crate::name::Name;
use crate::services::Service;
use crate::text::{concat, str_eq};
use vstd::prelude::*;

verus! {

/// A mount flag that a unit may name.
#[derive(Clone, Copy, PartialEq, Eq, Structural, Debug)]
pub enum MountFlag {
    ReadOnly,
    NoSuid,
    NoDev,
    NoExec,
    RelaTime,
    Bind,
    Rec,
    Private,
    Shared,
    Slave,
    StrictATime,
    LazyTime,
}

/// The flag that a name in a unit file stands for.
pub open spec fn flag_named(name: Seq<char>) -> Option<MountFlag> {
    if name == "MS_RDONLY"@ {
        Some(MountFlag::ReadOnly)
    } else if name == "MS_NOSUID"@ {
        Some(MountFlag::NoSuid)
    } else if name == "MS_NODEV"@ {
        Some(MountFlag::NoDev)
    } else if name == "MS_NOEXEC"@ {
        Some(MountFlag::NoExec)
    } else if name == "MS_RELATIME"@ {
        Some(MountFlag::RelaTime)
    } else if name == "MS_BIND"@ {
        Some(MountFlag::Bind)
    } else if name == "MS_REC"@ {
        Some(MountFlag::Rec)
    } else if name == "MS_PRIVATE"@ {
        Some(MountFlag::Private)
    } else if name == "MS_SHARED"@ {
        Some(MountFlag::Shared)
    } else if name == "MS_SLAVE"@ {
        Some(MountFlag::Slave)
    } else if name == "MS_STRICTATIME"@ {
        Some(MountFlag::StrictATime)
    } else if name == "MS_LAZYTIME"@ {
        Some(MountFlag::LazyTime)
    } else {
        None
    }
}

/// The flag a name stands for, if any.
pub fn mount_flag(name: &str) -> (r: Option<MountFlag>)
    ensures
        r == flag_named(name@),
{
    if str_eq(name, "MS_RDONLY") {
        Some(MountFlag::ReadOnly)
    } else if str_eq(name, "MS_NOSUID") {
        Some(MountFlag::NoSuid)
    } else if str_eq(name, "MS_NODEV") {
        Some(MountFlag::NoDev)
    } else if str_eq(name, "MS_NOEXEC") {
        Some(MountFlag::NoExec)
    } else if str_eq(name, "MS_RELATIME") {
        Some(MountFlag::RelaTime)
    } else if str_eq(name, "MS_BIND") {
        Some(MountFlag::Bind)
    } else if str_eq(name, "MS_REC") {
        Some(MountFlag::Rec)
    } else if str_eq(name, "MS_PRIVATE") {
        Some(MountFlag::Private)
    } else if str_eq(name, "MS_SHARED") {
        Some(MountFlag::Shared)
    } else if str_eq(name, "MS_SLAVE") {
        Some(MountFlag::Slave)
    } else if str_eq(name, "MS_STRICTATIME") {
        Some(MountFlag::StrictATime)
    } else if str_eq(name, "MS_LAZYTIME") {
        Some(MountFlag::LazyTime)
    } else {
        None
    }
}

/// Reads the flag names of a mount: every name must be known; the first
/// unknown one is reported as `unknown mount flag: <name>`.
pub fn parse_mount_flags(items: &Vec<String>) -> (r: Result<Vec<MountFlag>, String>)
    ensures
        match r {
            Ok(flags) => {
                &&& flags@.len() == items@.len()
                &&& forall|i: int| 0 <= i < items@.len() ==> flag_named(#[trigger] items@[i]@) == Some(flags@[i])
            },
            Err(e) => exists|i: int|
                0 <= i < items@.len() && flag_named(#[trigger] items@[i]@) is None && (forall|j: int|
                    0 <= j < i ==> flag_named(#[trigger] items@[j]@) is Some) && e@ == "unknown mount flag: "@
                    + items@[i]@,
        },
{
    let mut flags: Vec<MountFlag> = Vec::new();
    let mut i: usize = 0;
    while i < items.len()
        invariant
            i <= items@.len(),
            flags@.len() == i,
            forall|j: int| 0 <= j < i ==> flag_named(#[trigger] items@[j]@) == Some(flags@[j]),
        decreases items@.len() - i,
    {
        match mount_flag(items[i].as_str()) {
            Some(f) => flags.push(f),
            None => {
                let e = concat("unknown mount flag: ", items[i].as_str());
                assert(flag_named(items@[i as int]@) is None);
                return Err(e);
            },
        }
        i = i + 1;
    }
    Ok(flags)
}

/// A mount of a unit. The flags are kept as the list the unit file gives.
pub struct Mount {
    pub source: Option<String>,
    pub target: String,
    pub fstype: Option<String>,
    pub flags: Vec<MountFlag>,
    pub data: Option<String>,
    pub create: Option<bool>,
    pub after: Option<Vec<String>>,
}

/// An entry of a unit's index: the component `kind@name` is at `pos` in the list of its kind.
pub struct IndexEntry {
    pub key: String,
    pub pos: usize,
}

/// A unit: the components declared in one unit file, and their index.
pub struct Unit {
    pub service: Option<Vec<Service>>,
    pub mount: Option<Vec<Mount>>,
    pub state: Option<Vec<StateDefinition>>,
    pub signal: Option<Vec<SignalDefinition>>,
    pub index: Vec<IndexEntry>,
}

pub open spec fn service_names(u: Unit) -> Seq<Seq<char>> {
    match u.service {
        Some(v) => v@.map_values(|s: Service| s.name@),
        None => Seq::empty(),
    }
}

pub open spec fn mount_names(u: Unit) -> Seq<Seq<char>> {
    match u.mount {
        Some(v) => v@.map_values(|m: Mount| m.target@),
        None => Seq::empty(),
    }
}

pub open spec fn state_names(u: Unit) -> Seq<Seq<char>> {
    match u.state {
        Some(v) => v@.map_values(|s: StateDefinition| s.0.name@),
        None => Seq::empty(),
    }
}

pub open spec fn signal_names(u: Unit) -> Seq<Seq<char>> {
    match u.signal {
        Some(v) => v@.map_values(|s: SignalDefinition| s.0.name@),
        None => Seq::empty(),
    }
}

/// The index entries of one kind: `prefix + name` at each position.
pub open spec fn keyed(prefix: Seq<char>, names: Seq<Seq<char>>) -> Seq<(Seq<char>, int)> {
    Seq::new(names.len(), |i: int| (prefix + names[i], i))
}

/// The index of a unit: its services, mounts, states and signals, in that order.
pub open spec fn index_spec(u: Unit) -> Seq<(Seq<char>, int)> {
    keyed("service@"@, service_names(u)) + keyed("mount@"@, mount_names(u)) + keyed("state@"@, state_names(u))
        + keyed("signal@"@, signal_names(u))
}

pub open spec fn index_model(index: Seq<IndexEntry>) -> Seq<(Seq<char>, int)> {
    index.map_values(|e: IndexEntry| (e.key@, e.pos as int))
}

/// The position the index gives for `key`: that of its last entry, as a map
/// that takes the entries in order keeps it.
pub open spec fn index_lookup(entries: Seq<(Seq<char>, int)>, key: Seq<char>) -> Option<int>
    decreases entries.len(),
{
    if entries.len() == 0 {
        None
    } else if entries.last().0 == key {
        Some(entries.last().1)
    } else {
        index_lookup(entries.drop_last(), key)
    }
}

fn push_keyed(index: &mut Vec<IndexEntry>, prefix: &str, names: &Vec<String>)
    ensures
        index_model(final(index)@) == index_model(old(index)@) + keyed(prefix@, names@.map_values(|s: String| s@)),
{
    let ghost start = index_model(index@);
    let ghost ns = names@.map_values(|s: String| s@);
    let mut i: usize = 0;
    while i < names.len()
        invariant
            i <= names@.len(),
            ns == names@.map_values(|s: String| s@),
            index@.len() == start.len() + i,
            forall|j: int| 0 <= j < start.len() ==> index_model(index@)[j] == start[j],
            forall|j: int|
                start.len() <= j < index@.len() ==> #[trigger] index_model(index@)[j] == (
                prefix@ + ns[j - start.len()],
                j - start.len(),
            ),
        decreases names@.len() - i,
    {
        let key = concat(prefix, names[i].as_str());
        let ghost prev = index@;
        index.push(IndexEntry { key, pos: i });
        assert forall|j: int| 0 <= j < prev.len() implies index_model(index@)[j] == index_model(prev)[j] by {
            assert(index@[j] == prev[j]);
        }
        assert(ns[i as int] == names@[i as int]@);
        assert(index_model(index@)[prev.len() as int] == (prefix@ + ns[i as int], i as int));
        assert forall|j: int| start.len() <= j < index@.len() implies #[trigger] index_model(index@)[j] == (
            prefix@ + ns[j - start.len()],
            j - start.len(),
        ) by {
            if j < prev.len() {
                assert(index_model(index@)[j] == index_model(prev)[j]);
                assert(index_model(prev)[j] == (prefix@ + ns[j - start.len()], j - start.len()));
            }
        }
        i = i + 1;
    }
    assert(index_model(index@) =~= start + keyed(prefix@, ns)) by {
        assert forall|j: int| 0 <= j < index@.len() implies index_model(index@)[j] == (start + keyed(prefix@, ns))[j] by {
        }
    }
}

fn set_unit_name(services: &mut Vec<Service>, name: &Name) -> (names: Vec<String>)
    ensures
        final(services)@.len() == old(services)@.len(),
        names@.map_values(|s: String| s@) == old(services)@.map_values(|s: Service| s.name@),
        forall|i: int|
            0 <= i < old(services)@.len() ==> {
                let o = #[trigger] old(services)@[i];
                let n = final(services)@[i];
                &&& n.unit@ == name@
                &&& n == (Service { unit: n.unit, ..o })
            },
{
    let ghost before = services@;
    let mut names: Vec<String> = Vec::new();
    let mut i: usize = 0;
    let n = services.len();
    while i < n
        invariant
            n == services@.len(),
            n == before.len(),
            i <= n,
            names@.len() == i,
            forall|t: int| i <= t < n ==> services@[t] == before[t],
            forall|t: int| 0 <= t < i ==> (#[trigger] names@[t])@ == before[t].name@,
            forall|t: int|
                0 <= t < i ==> {
                    let o = #[trigger] before[t];
                    let m = services@[t];
                    &&& m.unit@ == name@
                    &&& m == (Service { unit: m.unit, ..o })
                },
        decreases n - i,
    {
        let mut svc = services.remove(i);
        svc.unit = name.duplicate();
        names.push(svc.name.clone());
        services.insert(i, svc);
        i = i + 1;
    }
    assert(names@.map_values(|s: String| s@) =~= before.map_values(|s: Service| s.name@));
    names
}

impl Unit {
    /// Rebuilds the index (`service@name`, `mount@target`, `state@name`,
    /// `signal@name` to the position in its list) and marks each service as
    /// belonging to the unit `name`.
    pub fn build_index(&mut self, name: &Name)
        ensures
            index_model(final(self).index@) == index_spec(*old(self)),
            service_names(*final(self)) == service_names(*old(self)),
            final(self).mount == old(self).mount,
            final(self).state == old(self).state,
            final(self).signal == old(self).signal,
            final(self).service is Some <==> old(self).service is Some,
            final(self).service matches Some(v) ==> forall|i: int|
                0 <= i < v@.len() ==> {
                    let n = #[trigger] v@[i];
                    let o = old(self).service->0@[i];
                    &&& n.unit@ == name@
                    &&& n == (Service { unit: n.unit, ..o })
                },
    {
        let mut index: Vec<IndexEntry> = Vec::new();
        match self.service.take() {
            Some(mut services) => {
                let names = set_unit_name(&mut services, name);
                push_keyed(&mut index, "service@", &names);
                self.service = Some(services);
            },
            None => {
                let empty: Vec<String> = Vec::new();
                push_keyed(&mut index, "service@", &empty);
                assert(empty@.map_values(|s: String| s@) =~= Seq::<Seq<char>>::empty());
            },
        }
        let mut mnames: Vec<String> = Vec::new();
        if let Some(mounts) = &self.mount {
            let mut i: usize = 0;
            while i < mounts.len()
                invariant
                    i <= mounts@.len(),
                    mnames@.len() == i,
                    forall|j: int| 0 <= j < i ==> (#[trigger] mnames@[j])@ == mounts@[j].target@,
                decreases mounts@.len() - i,
            {
                mnames.push(mounts[i].target.clone());
                i = i + 1;
            }
            assert(mnames@.map_values(|s: String| s@) =~= mounts@.map_values(|m: Mount| m.target@));
        }
        push_keyed(&mut index, "mount@", &mnames);
        let mut snames: Vec<String> = Vec::new();
        if let Some(states) = &self.state {
            let mut i: usize = 0;
            while i < states.len()
                invariant
                    i <= states@.len(),
                    snames@.len() == i,
                    forall|j: int| 0 <= j < i ==> (#[trigger] snames@[j])@ == states@[j].0.name@,
                decreases states@.len() - i,
            {
                snames.push(states[i].0.name.clone());
                i = i + 1;
            }
            assert(snames@.map_values(|s: String| s@) =~= states@.map_values(|s: StateDefinition| s.0.name@));
        }
        push_keyed(&mut index, "state@", &snames);
        let mut gnames: Vec<String> = Vec::new();
        if let Some(signals) = &self.signal {
            let mut i: usize = 0;
            while i < signals.len()
                invariant
                    i <= signals@.len(),
                    gnames@.len() == i,
                    forall|j: int| 0 <= j < i ==> (#[trigger] gnames@[j])@ == signals@[j].0.name@,
                decreases signals@.len() - i,
            {
                gnames.push(signals[i].0.name.clone());
                i = i + 1;
            }
            assert(gnames@.map_values(|s: String| s@) =~= signals@.map_values(|s: SignalDefinition| s.0.name@));
        }
        push_keyed(&mut index, "signal@", &gnames);
        self.index = index;
        proof {
            assert(index_model(self.index@) =~= index_spec(*old(self)));
        }
    }

    /// The position that the index gives for `key`.
    pub fn index_get(&self, key: &str) -> (r: Option<usize>)
        ensures
            r matches Some(p) ==> index_lookup(index_model(self.index@), key@) == Some(p as int),
            r is None ==> index_lookup(index_model(self.index@), key@) is None,
    {
        let ghost m = index_model(self.index@);
        let mut i = self.index.len();
        assert(m.subrange(0, i as int) =~= m);
        while i > 0
            invariant
                i <= self.index@.len(),
                m == index_model(self.index@),
                index_lookup(m, key@) == index_lookup(m.subrange(0, i as int), key@),
            decreases i,
        {
            let e = &self.index[i - 1];
            assert(m.subrange(0, i as int).drop_last() =~= m.subrange(0, i - 1));
            if str_eq(e.key.as_str(), key) {
                return Some(e.pos);
            }
            i = i - 1;
        }
        None
    }

    /// Whether the index has an entry for `key`.
    pub fn index_contains(&self, key: &str) -> (r: bool)
        ensures
            r == index_lookup(index_model(self.index@), key@) is Some,
    {
        self.index_get(key).is_some()
    }

    /// The number of services of the unit.
    pub fn service_count(&self) -> (r: usize)
        ensures
            r == service_names(*self).len(),
    {
        match &self.service {
            Some(v) => v.len(),
            None => 0,
        }
    }

    /// The number of mounts of the unit.
    pub fn mount_count(&self) -> (r: usize)
        ensures
            r == mount_names(*self).len(),
    {
        match &self.mount {
            Some(v) => v.len(),
            None => 0,
        }
    }
}

} // verus!
