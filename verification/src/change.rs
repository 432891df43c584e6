//! The guard of one flow change, and the first decision of setting a state.
//! A change that sets a state can set or remove dependent states, which can
//! lead back to the first one; each state set (and each branch reverted) holds
//! a guard key while its change is under way, and a key that is already held
//! is not entered again.
use crate::flow::{FlowInstance, FlowPayload, FlowType};
use crate::store::{Store, check_flow_spec};
use crate::text::{owned, str_eq};
use crate::transport::clone_strings;
use crate::triggers::{apply_guard_key, opt_strings, signature_spec};
use vstd::prelude::*;

verus! {

/// The guard keys held by the changes under way, each once.
pub struct ChangeGuard {
    keys: Vec<String>,
}

impl View for ChangeGuard {
    type V = Set<Seq<char>>;

    closed spec fn view(&self) -> Set<Seq<char>> {
        self.keys@.map_values(|x: String| x@).to_set()
    }
}

impl ChangeGuard {
    /// No key is held more than once.
    pub closed spec fn wf(&self) -> bool {
        self.keys@.map_values(|x: String| x@).no_duplicates()
    }

    /// A guard that holds no key.
    pub fn new() -> (r: Self)
        ensures
            r.wf(),
            r@ == Set::<Seq<char>>::empty(),
    {
        let r = ChangeGuard { keys: Vec::new() };
        assert(r.keys@.map_values(|x: String| x@) =~= Seq::<Seq<char>>::empty());
        r
    }

    fn position(&self, key: &str) -> (r: Option<usize>)
        ensures
            match r {
                Some(i) => i < self.keys@.len() && self.keys@[i as int]@ == key@,
                None => !self@.contains(key@),
            },
    {
        let mut i: usize = 0;
        while i < self.keys.len()
            invariant
                i <= self.keys@.len(),
                forall|j: int| 0 <= j < i ==> self.keys@[j]@ != key@,
            decreases self.keys@.len() - i,
        {
            if str_eq(self.keys[i].as_str(), key) {
                return Some(i);
            }
            i = i + 1;
        }
        proof {
            let m = self.keys@.map_values(|x: String| x@);
            if m.to_set().contains(key@) {
                let j = choose|j: int| 0 <= j < m.len() && m[j] == key@;
                assert(self.keys@[j]@ == m[j]);
            }
        }
        None
    }

    /// Whether the key is held.
    pub fn holds(&self, key: &str) -> (r: bool)
        ensures
            r == self@.contains(key@),
    {
        match self.position(key) {
            Some(i) => {
                proof {
                    let m = self.keys@.map_values(|x: String| x@);
                    assert(m[i as int] == key@);
                    assert(m.to_set().contains(key@));
                }
                true
            },
            None => false,
        }
    }

    /// Takes the key: gives `true` and holds it where it was not held, and
    /// gives `false` with nothing changed where it was.
    pub fn enter(&mut self, key: &str) -> (entered: bool)
        requires
            old(self).wf(),
        ensures
            final(self).wf(),
            entered == !old(self)@.contains(key@),
            final(self)@ == old(self)@.insert(key@),
    {
        if self.holds(key) {
            assert(self@.insert(key@) =~= self@);
            return false;
        }
        let ghost m0 = self.keys@.map_values(|x: String| x@);
        self.keys.push(owned(key));
        proof {
            let m = self.keys@.map_values(|x: String| x@);
            assert(m =~= m0.push(key@));
            assert(!m0.contains(key@)) by {
                if m0.contains(key@) {
                    let j = choose|j: int| 0 <= j < m0.len() && m0[j] == key@;
                    assert(m0.to_set().contains(key@));
                }
            }
            assert forall|a: int, b: int| 0 <= a < b < m.len() implies m[a] != m[b] by {
                if b == m0.len() {
                    assert(m[a] == m0[a]);
                    assert(m0.contains(m0[a]));
                }
            }
            assert(m.to_set() =~= m0.to_set().insert(key@)) by {
                assert forall|x: Seq<char>| m.to_set().contains(x) <==> m0.to_set().insert(key@).contains(x) by {
                    if m.to_set().contains(x) {
                        let j = choose|j: int| 0 <= j < m.len() && m[j] == x;
                        if j < m0.len() {
                            assert(m0[j] == x);
                        }
                    }
                    if m0.to_set().contains(x) {
                        let j = choose|j: int| 0 <= j < m0.len() && m0[j] == x;
                        assert(m[j] == x);
                    }
                    if x == key@ {
                        assert(m[m0.len() as int] == x);
                    }
                }
            }
        }
        true
    }

    /// Gives the key back: it is no longer held.
    pub fn leave(&mut self, key: &str)
        requires
            old(self).wf(),
        ensures
            final(self).wf(),
            final(self)@ == old(self)@.remove(key@),
    {
        match self.position(key) {
            Some(i) => {
                let ghost m0 = self.keys@.map_values(|x: String| x@);
                self.keys.remove(i);
                proof {
                    let m = self.keys@.map_values(|x: String| x@);
                    assert(m =~= m0.remove(i as int));
                    assert(m0[i as int] == key@);
                    assert forall|a: int, b: int| 0 <= a < b < m.len() implies m[a] != m[b] by {
                        let a0 = if a < i { a } else { a + 1 };
                        let b0 = if b < i { b } else { b + 1 };
                        assert(m[a] == m0[a0]);
                        assert(m[b] == m0[b0]);
                    }
                    assert(m.to_set() =~= m0.to_set().remove(key@)) by {
                        assert forall|x: Seq<char>| m.to_set().contains(x) <==> m0.to_set().remove(key@).contains(x) by {
                            if m.to_set().contains(x) {
                                let j = choose|j: int| 0 <= j < m.len() && m[j] == x;
                                let j0 = if j < i { j } else { j + 1 };
                                assert(m0[j0] == x);
                                assert(j0 != i);
                            }
                            if m0.to_set().remove(key@).contains(x) {
                                let j = choose|j: int| 0 <= j < m0.len() && m0[j] == x;
                                assert(j != i);
                                if j < i {
                                    assert(m[j] == x);
                                } else {
                                    assert(m[j - 1] == x);
                                }
                            }
                        }
                    }
                }
            },
            None => {
                assert(self@.remove(key@) =~= self@);
            },
        }
    }
}

/// How setting a state begins.
pub enum SetBegin {
    /// The same state with the same payload is being set already: nothing is
    /// done, and the change succeeds.
    Guarded,
    /// The state is unknown or the payload is not of its type.
    Invalid,
    /// The change goes on with this instance and the branch keys of the
    /// state's definition, holding the guard key `key`.
    Proceed { instance: FlowInstance, branches: Option<Vec<String>>, key: String },
}

/// The guard key of setting the state `name` with `payload`.
pub open spec fn apply_key_spec(name: Seq<char>, payload: Option<FlowPayload>) -> Seq<char> {
    "apply::"@ + name + "::"@ + signature_spec(payload)
}

impl Store {
    /// The first decision of setting a state: where its guard key is held,
    /// the change is cut short; where the state is unknown or the payload not
    /// of its type, it fails with the guard as it was; otherwise the guard
    /// key is taken and the change goes on with the instance to store (an
    /// empty payload where none is given) and the state's branch keys.
    pub fn begin_set_state(&self, guard: &mut ChangeGuard, name: String, payload: Option<FlowPayload>) -> (r: SetBegin)
        requires
            self.wf(),
            old(guard).wf(),
        ensures
            final(guard).wf(),
            old(guard)@.contains(apply_key_spec(name@, payload)) ==> r is Guarded && final(guard)@ == old(guard)@,
            !old(guard)@.contains(apply_key_spec(name@, payload)) ==> match check_flow_spec(self.units@, FlowType::State, name@, payload) {
                None => r is Invalid && final(guard)@ == old(guard)@,
                Some(d) => match r {
                    SetBegin::Proceed { instance, branches, key } => {
                        &&& key@ == apply_key_spec(name@, payload)
                        &&& final(guard)@ == old(guard)@.insert(key@)
                        &&& instance.name@ == name@
                        &&& instance.flow_type == FlowType::State
                        &&& instance.payload == match payload {
                            Some(p) => p,
                            None => FlowPayload::Empty(false),
                        }
                        &&& opt_strings(branches) == opt_strings(d.branch)
                    },
                    _ => false,
                },
            },
    {
        let key = apply_guard_key(name.as_str(), &payload);
        if guard.holds(key.as_str()) {
            return SetBegin::Guarded;
        }
        let branches = match self.check_flow(FlowType::State, name.as_str(), &payload) {
            None => {
                return SetBegin::Invalid;
            },
            Some(def) => match &def.branch {
                Some(b) => Some(clone_strings(b)),
                None => None,
            },
        };
        guard.enter(key.as_str());
        let payload = match payload {
            Some(p) => p,
            None => FlowPayload::Empty(false),
        };
        SetBegin::Proceed { instance: FlowInstance { name, payload, flow_type: FlowType::State }, branches, key }
    }
}

} // verus!
