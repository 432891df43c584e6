//! The rules that decide when a flow condition holds, how payloads match
//! filters, and how state payloads are keyed into branches and merged.
use crate::flow::{FlowPayload, FlowInstance, FlowItem, FlowMatchOperation, FlowType, FlowJson, FlowPayloadType, FlowDefinitionBase, AutoPayloadInsert, payload_text, payload_contains, json_of_text, same_payload};
use crate::json::{JsonModel, JsonKind, json_view, json_equal, json_text, parse_json, json_kind, json_object_keys, json_get, json_as_array, json_eq, json_clone, json_insert, json_to_string, json_empty_object, json_string, json_array, json_parse};
use crate::text::{push_char, concat, owned, trim, trim_spec, split_once_char, split_once_spec, str_eq, strings_eq, payload_lines, payload_lines_spec, join, join_spec};
use vstd::prelude::*;
use vstd::string::StringSliceAdditionalSpecFns;

verus! {

/// Whether a state or signal is applied or reverted.
#[derive(Clone, Copy, PartialEq, Eq, Structural, Debug)]
pub enum FlowChangeAction {
    Apply,
    Revert,
}

/// `filter` is a subset of `payload`: every member of a filter object is in the
/// payload object with a matching value, every item of a filter array matches
/// some item of the payload array, and other values are equal.
pub open spec fn subset_spec(filter: JsonModel, payload: JsonModel) -> bool
    decreases filter,
{
    match filter {
        JsonModel::Object(fm) => match payload {
            JsonModel::Object(pm) => forall|k: Seq<char>|
                #![trigger fm.dom().contains(k)]
                fm.dom().contains(k) ==> pm.dom().contains(k) && subset_spec(fm[k], pm[k]),
            _ => json_equal(filter, payload),
        },
        JsonModel::Array(fa) => match payload {
            JsonModel::Array(pa) => forall|i: int|
                #[trigger] in_range(fa, i) ==> exists|j: int|
                    #[trigger] in_range(pa, j) && subset_spec(fa[i], pa[j]),
            _ => json_equal(filter, payload),
        },
        _ => json_equal(filter, payload),
    }
}

/// `i` is an index of `s`.
pub open spec fn in_range<A>(s: Seq<A>, i: int) -> bool {
    0 <= i < s.len()
}

/// `f` is a subset of some item of `ps`.
pub open spec fn subset_of_some(f: JsonModel, ps: Seq<JsonModel>) -> bool {
    exists|j: int| #[trigger] in_range(ps, j) && subset_spec(f, ps[j])
}

/// Every one of the first `n` items of `fs` is a subset of some item of `ps`.
pub open spec fn items_covered(fs: Seq<JsonModel>, ps: Seq<JsonModel>, n: int) -> bool {
    forall|t: int| 0 <= t < n ==> #[trigger] subset_of_some(fs[t], ps)
}

/// Whether `filter` is a subset of `payload` (see `subset_spec`).
pub fn subset_match(filter: &serde_json::Value, payload: &serde_json::Value) -> (r: bool)
    ensures
        r == subset_spec(json_view(*filter), json_view(*payload)),
    decreases json_view(*filter),
{
    let fk = json_kind(filter);
    let pk = json_kind(payload);
    if fk == JsonKind::Object && pk == JsonKind::Object {
        let keys = json_object_keys(filter).unwrap();
        let ghost fm = json_view(*filter)->Object_0;
        let ghost pm = json_view(*payload)->Object_0;
        let ghost kv = keys@.map_values(|k: String| k@);
        let mut i: usize = 0;
        while i < keys.len()
            invariant
                i <= keys@.len(),
                kv == keys@.map_values(|k: String| k@),
                kv.to_set() == fm.dom(),
                json_view(*filter) == JsonModel::Object(fm),
                json_view(*payload) == JsonModel::Object(pm),
                forall|t: int|
                    0 <= t < i ==> pm.dom().contains(#[trigger] kv[t]) && subset_spec(fm[kv[t]], pm[kv[t]]),
            decreases keys@.len() - i,
        {
            assert(kv[i as int] == keys@[i as int]@);
            assert(fm.dom().contains(kv[i as int])) by {
                assert(kv.to_set().contains(kv[i as int]));
            }
            let key = keys[i].as_str();
            let fv = json_get(filter, key).unwrap();
            match json_get(payload, key) {
                Some(pv) => {
                    proof {
                        assert(decreases_to!(json_view(*filter) => fm));
                    }
                    if !subset_match(fv, pv) {
                        return false;
                    }
                },
                None => {
                    return false;
                },
            }
            i = i + 1;
        }
        assert forall|k: Seq<char>| #[trigger] fm.dom().contains(k) implies pm.dom().contains(k) && subset_spec(fm[k], pm[k]) by {
            assert(kv.to_set().contains(k));
            let t = choose|t: int| 0 <= t < kv.len() && kv[t] == k;
        }
        return true;
    }
    if fk == JsonKind::Array && pk == JsonKind::Array {
        let fa = json_as_array(filter).unwrap();
        let pa = json_as_array(payload).unwrap();
        let ghost fs = fa@.map_values(|x: serde_json::Value| json_view(x));
        let ghost ps = pa@.map_values(|x: serde_json::Value| json_view(x));
        let mut i: usize = 0;
        while i < fa.len()
            invariant
                i <= fa@.len(),
                fs == fa@.map_values(|x: serde_json::Value| json_view(x)),
                ps == pa@.map_values(|x: serde_json::Value| json_view(x)),
                json_view(*filter) == JsonModel::Array(fs),
                json_view(*payload) == JsonModel::Array(ps),
                items_covered(fs, ps, i as int),
            decreases fa@.len() - i,
        {
            proof {
                assert(fs[i as int] == json_view(fa@[i as int]));
                let m = json_view(*filter);
                assert(m == JsonModel::Array(fs));
                assert(decreases_to!(m => m->Array_0));
                vstd::seq::axiom_seq_index_decreases(fs, i as int);
                assert(decreases_to!(fs => fs[i as int]));
                assert(decreases_to!(m => fs[i as int]));
            }
            let fi = &fa[i];
            let mut j: usize = 0;
            let mut found = false;
            while j < pa.len() && !found
                invariant
                    j <= pa@.len(),
                    i < fa@.len(),
                    fs == fa@.map_values(|x: serde_json::Value| json_view(x)),
                    ps == pa@.map_values(|x: serde_json::Value| json_view(x)),
                    *fi == fa@[i as int],
                    json_view(*filter) == JsonModel::Array(fs),
                    json_view(*payload) == JsonModel::Array(ps),
                    items_covered(fs, ps, i as int),
                    decreases_to!(json_view(*filter) => json_view(*fi)),
                    found ==> subset_of_some(fs[i as int], ps),
                    !found ==> forall|t: int| 0 <= t < j ==> !subset_spec(fs[i as int], #[trigger] ps[t]),
                decreases pa@.len() - j + (if found { 0int } else { 1int }),
            {
                if subset_match(fi, &pa[j]) {
                    proof {
                        assert(ps[j as int] == json_view(pa@[j as int]));
                        assert(in_range(ps, j as int));
                    }
                    found = true;
                } else {
                    proof {
                        assert(ps[j as int] == json_view(pa@[j as int]));
                    }
                    j = j + 1;
                }
            }
            if !found {
                proof {
                    assert(!subset_of_some(fs[i as int], ps));
                    assert(in_range(fs, i as int));
                    assert(json_view(*filter)->Array_0 == fs);
                    assert(json_view(*payload)->Array_0 == ps);
                    assert(!subset_spec(json_view(*filter), json_view(*payload)));
                }
                return false;
            }
            proof {
                assert forall|t: int| 0 <= t < i + 1 implies #[trigger] subset_of_some(fs[t], ps) by {
                    if t < i {
                        assert(items_covered(fs, ps, i as int));
                    }
                }
            }
            i = i + 1;
        }
        proof {
            assert forall|t: int| #[trigger] in_range(fs, t) implies exists|j: int| #[trigger] in_range(ps, j) && subset_spec(fs[t], ps[j]) by {
                assert(items_covered(fs, ps, fs.len() as int));
                assert(subset_of_some(fs[t], ps));
            }
            assert(json_view(*filter)->Array_0 == fs);
            assert(json_view(*payload)->Array_0 == ps);
            assert(subset_spec(json_view(*filter), json_view(*payload)));
        }
        return true;
    }
    json_eq(filter, payload)
}


/// The filter that `remove_state` uses to find the branch of a payload: the
/// JSON value as a subset filter, the text for a string, nothing otherwise.
pub open spec fn filter_of_payload(p: FlowPayload, f: Option<FlowMatchOperation>) -> bool {
    match p {
        FlowPayload::Json(j) => f matches Some(FlowMatchOperation::Options { binary, contains, filter })
            && binary is None && contains is None && filter is Some && json_view(filter->0)
            == json_of_text(j@),
        FlowPayload::String(s) => f matches Some(FlowMatchOperation::Eq(t)) && t@ == s@,
        FlowPayload::Bytes(_) => f is None,
        FlowPayload::Empty(_) => f is None,
    }
}

/// The filter that selects the branch of a payload (see `filter_of_payload`).
pub fn payload_to_filter(payload: &FlowPayload) -> (r: Option<FlowMatchOperation>)
    ensures
        filter_of_payload(*payload, r),
{
    match payload {
        FlowPayload::Json(i) => Some(
            FlowMatchOperation::Options { binary: None, contains: None, filter: Some(i.into_json()) },
        ),
        FlowPayload::Bytes(_) => None,
        FlowPayload::String(i) => Some(FlowMatchOperation::Eq(i.clone())),
        FlowPayload::Empty(_) => None,
    }
}

/// Whether a matcher accepts a payload: `Eq` compares the payload text; the
/// options test, in this order, for a binary payload, a contained string, or a
/// JSON payload of which the filter is a subset.
pub open spec fn match_spec(m: FlowMatchOperation, p: FlowPayload) -> bool {
    match m {
        FlowMatchOperation::Eq(s) => payload_text(p) == s@,
        FlowMatchOperation::Options { binary, contains, filter } => if binary == Some(true) {
            p is Bytes
        } else if contains is Some {
            payload_contains(p, contains->0@)
        } else if filter is Some {
            match p {
                FlowPayload::Json(j) => subset_spec(json_view(filter->0), json_of_text(j@)),
                _ => false,
            }
        } else {
            false
        },
    }
}

/// Whether a matcher accepts a payload (see `match_spec`).
pub fn match_operation(matcher: &FlowMatchOperation, payload: &FlowPayload) -> (r: bool)
    ensures
        r == match_spec(*matcher, *payload),
{
    match matcher {
        FlowMatchOperation::Eq(s) => {
            let t = payload.to_string();
            t == *s
        },
        FlowMatchOperation::Options { binary, contains, filter } => {
            if let Some(true) = binary {
                matches!(payload, FlowPayload::Bytes(_))
            } else if let Some(contains) = contains {
                payload.contains(contains)
            } else if let Some(filter) = filter {
                match payload {
                    FlowPayload::Json(payload) => subset_match(filter, &payload.into_json()),
                    _ => false,
                }
            } else {
                false
            }
        },
    }
}

/// Whether a flow condition holds for a flow that changed: a bare name matches
/// a flow of that name; a detailed condition names a state or a signal, which
/// must be of that type and name, and whose payload its matcher must accept.
pub open spec fn condition_spec(cond: FlowItem, trigger: FlowInstance) -> bool {
    match cond {
        FlowItem::Simple(s) => s@ == trigger.name@,
        FlowItem::Detailed { state, signal, target, branch } => if state is Some {
            trigger.flow_type == FlowType::State && state->0@ == trigger.name@ && match branch {
                Some(b) => match_spec(b, trigger.payload),
                None => true,
            }
        } else if signal is Some {
            trigger.flow_type == FlowType::Signal && signal->0@ == trigger.name@ && match target {
                Some(t) => match_spec(t, trigger.payload),
                None => true,
            }
        } else {
            false
        },
    }
}

/// Whether a flow condition holds for a flow that changed (see `condition_spec`).
pub fn check_condition(cond: &FlowItem, trigger: &FlowInstance) -> (r: bool)
    ensures
        r == condition_spec(*cond, *trigger),
{
    match cond {
        FlowItem::Simple(s) => *s == trigger.name,
        FlowItem::Detailed { state, signal, target, branch } => {
            if let Some(state) = state {
                if trigger.flow_type == FlowType::State {
                    if let Some(branch) = branch {
                        *state == trigger.name && match_operation(branch, &trigger.payload)
                    } else {
                        *state == trigger.name
                    }
                } else {
                    false
                }
            } else if let Some(sig) = signal {
                if trigger.flow_type == FlowType::Signal {
                    if let Some(target) = target {
                        *sig == trigger.name && match_operation(target, &trigger.payload)
                    } else {
                        *sig == trigger.name
                    }
                } else {
                    false
                }
            } else {
                false
            }
        },
    }
}

/// The branch key of a JSON value: the texts of its members under `keys`, in
/// order; `None` unless the value is an object that has every key.
pub open spec fn branch_key_spec(m: JsonModel, keys: Seq<Seq<char>>) -> Option<Seq<Seq<char>>> {
    match m {
        JsonModel::Object(o) => if forall|i: int| 0 <= i < keys.len() ==> #[trigger] o.dom().contains(keys[i]) {
            Some(Seq::new(keys.len(), |i: int| json_text(o[keys[i]])))
        } else {
            None
        },
        _ => None,
    }
}

/// The branch key of a JSON value (see `branch_key_spec`).
pub fn json_branch_key(value: &serde_json::Value, keys: &Vec<String>) -> (r: Option<Vec<String>>)
    ensures
        match branch_key_spec(json_view(*value), keys@.map_values(|k: String| k@)) {
            Some(ks) => r is Some && r->0@.map_values(|x: String| x@) == ks,
            None => r is None,
        },
{
    let ghost kv = keys@.map_values(|k: String| k@);
    if json_kind(value) != JsonKind::Object {
        return None;
    }
    let ghost o = json_view(*value)->Object_0;
    let mut out: Vec<String> = Vec::new();
    let mut i: usize = 0;
    while i < keys.len()
        invariant
            i <= keys@.len(),
            kv == keys@.map_values(|k: String| k@),
            json_view(*value) == JsonModel::Object(o),
            forall|t: int| 0 <= t < i ==> #[trigger] o.dom().contains(kv[t]),
            out@.map_values(|x: String| x@) == Seq::new(i as nat, |t: int| json_text(o[kv[t]])),
        decreases keys@.len() - i,
    {
        assert(kv[i as int] == keys@[i as int]@);
        match json_get(value, keys[i].as_str()) {
            Some(v) => {
                let text = json_to_string(v);
                assert(text@ == json_text(o[kv[i as int]]));
                let ghost before = out@;
                out.push(text);
                assert(out@.map_values(|x: String| x@) =~= before.map_values(|x: String| x@).push(text@));
                assert(out@.map_values(|x: String| x@) =~= Seq::new((i + 1) as nat, |t: int| json_text(o[kv[t]])));
            },
            None => {
                assert(!o.dom().contains(kv[i as int]));
                return None;
            },
        }
        i = i + 1;
    }
    Some(out)
}

/// Merges the members of `b` into `a`, those of `b` winning, when both are objects;
/// otherwise `a` stays as it is.
pub open spec fn merge_spec(a: JsonModel, b: JsonModel) -> JsonModel {
    match (a, b) {
        (JsonModel::Object(x), JsonModel::Object(y)) => JsonModel::Object(x.union_prefer_right(y)),
        _ => a,
    }
}

/// Merges the members of `b` into `a` (see `merge_spec`).
pub fn merge_json(a: &mut serde_json::Value, b: &serde_json::Value)
    ensures
        json_view(*final(a)) == merge_spec(json_view(*old(a)), json_view(*b)),
{
    if json_kind(a) != JsonKind::Object {
        return;
    }
    let keys = match json_object_keys(b) {
        Some(k) => k,
        None => {
            return;
        },
    };
    let ghost x = json_view(*a)->Object_0;
    let ghost y = json_view(*b)->Object_0;
    let ghost kv = keys@.map_values(|k: String| k@);
    proof {
        assert(kv.subrange(0, 0).to_set() =~= Set::empty());
        assert(x.union_prefer_right(y.restrict(Set::empty())) =~= x);
    }
    let mut i: usize = 0;
    while i < keys.len()
        invariant
            i <= keys@.len(),
            kv == keys@.map_values(|k: String| k@),
            kv.no_duplicates(),
            kv.to_set() == y.dom(),
            json_view(*b) == JsonModel::Object(y),
            json_view(*a) == JsonModel::Object(
                x.union_prefer_right(y.restrict(kv.subrange(0, i as int).to_set())),
            ),
        decreases keys@.len() - i,
    {
        let key = keys[i].clone();
        assert(y.dom().contains(kv[i as int])) by {
            assert(kv.to_set().contains(kv[i as int]));
        }
        let v = json_clone(json_get(b, keys[i].as_str()).unwrap());
        json_insert(a, key, v);
        proof {
            let before = kv.subrange(0, i as int).to_set();
            let after = kv.subrange(0, i + 1).to_set();
            assert(after =~= before.insert(kv[i as int])) by {
                assert(kv.subrange(0, i + 1) =~= kv.subrange(0, i as int).push(kv[i as int]));
                kv.subrange(0, i as int).lemma_push_to_set_commute(kv[i as int]);
            }
            assert(kv[i as int] == keys@[i as int]@);
            assert(x.union_prefer_right(y.restrict(before)).insert(kv[i as int], y[kv[i as int]]) =~= x.union_prefer_right(
                y.restrict(after),
            ));
        }
        i = i + 1;
    }
    proof {
        assert(kv.subrange(0, kv.len() as int) =~= kv);
        assert(y.restrict(kv.to_set()) =~= y);
    }
}

/// The decimal digit for `d < 10`.
pub open spec fn digit_char(d: nat) -> char {
    if d == 0 { '0' } else if d == 1 { '1' } else if d == 2 { '2' } else if d == 3 { '3' } else if d == 4 { '4' }
    else if d == 5 { '5' } else if d == 6 { '6' } else if d == 7 { '7' } else if d == 8 { '8' } else { '9' }
}

/// The decimal text of `n`, as `{}` formats an integer.
pub open spec fn decimal_spec(n: nat) -> Seq<char>
    decreases n,
{
    if n < 10 {
        seq![digit_char(n)]
    } else {
        decimal_spec(n / 10).push(digit_char(n % 10))
    }
}

pub fn digit(d: usize) -> (c: char)
    requires
        d < 10,
    ensures
        c == digit_char(d as nat),
{
    if d == 0 { '0' } else if d == 1 { '1' } else if d == 2 { '2' } else if d == 3 { '3' } else if d == 4 { '4' }
    else if d == 5 { '5' } else if d == 6 { '6' } else if d == 7 { '7' } else if d == 8 { '8' } else { '9' }
}

/// The decimal text of `n` (see `decimal_spec`).
pub fn decimal(n: usize) -> (r: String)
    ensures
        r@ == decimal_spec(n as nat),
    decreases n,
{
    if n < 10 {
        let mut s = String::new();
        push_char(&mut s, digit(n));
        assert(s@ =~= seq![digit_char(n as nat)]);
        s
    } else {
        let mut s = decimal(n / 10);
        push_char(&mut s, digit(n % 10));
        s
    }
}

/// The signature of a payload that keeps one apply or revert from running twice:
/// `json:` and the JSON text, `str:` and the string, `bytes:` and the length, or `none`.
pub open spec fn signature_spec(p: Option<FlowPayload>) -> Seq<char> {
    match p {
        Some(FlowPayload::Json(v)) => "json:"@ + v@,
        Some(FlowPayload::String(v)) => "str:"@ + v@,
        Some(FlowPayload::Bytes(v)) => "bytes:"@ + decimal_spec(v@.len()),
        Some(FlowPayload::Empty(_)) => "none"@,
        None => "none"@,
    }
}

/// The signature of a payload (see `signature_spec`).
pub fn payload_signature(payload: &Option<FlowPayload>) -> (r: String)
    ensures
        r@ == signature_spec(*payload),
{
    match payload {
        Some(FlowPayload::Json(v)) => concat("json:", v.to_string().as_str()),
        Some(FlowPayload::String(v)) => concat("str:", v.as_str()),
        Some(FlowPayload::Bytes(v)) => concat("bytes:", decimal(v.len()).as_str()),
        Some(FlowPayload::Empty(_)) => owned("none"),
        None => owned("none"),
    }
}

/// Whether `thing` agrees with `reference`: when both are objects, every shared
/// member must be equal and, where no member is shared, every value of the
/// reference must occur among the values of `thing`; a reference that is not an
/// object agrees with anything, an object reference with nothing else.
pub open spec fn json_subset_spec(reference: JsonModel, thing: JsonModel) -> bool {
    match reference {
        JsonModel::Object(r) => match thing {
            JsonModel::Object(t) => {
                let shared = r.dom().intersect(t.dom());
                if exists|k: Seq<char>| #[trigger] shared.contains(k) && !json_equal(r[k], t[k]) {
                    false
                } else if exists|k: Seq<char>| #[trigger] shared.contains(k) {
                    true
                } else {
                    forall|k: Seq<char>| #[trigger] r.dom().contains(k) ==> exists|k2: Seq<char>|
                        #[trigger] t.dom().contains(k2) && json_equal(t[k2], r[k])
                }
            },
            _ => false,
        },
        _ => true,
    }
}

/// Whether `reference`'s value occurs among the values of `thing`.
fn occurs_among(value: &serde_json::Value, thing: &serde_json::Value, thing_keys: &Vec<String>) -> (r: bool)
    requires
        json_view(*thing) is Object,
        thing_keys@.map_values(|k: String| k@).to_set() == json_view(*thing)->Object_0.dom(),
    ensures
        r == exists|k2: Seq<char>|
            #[trigger] json_view(*thing)->Object_0.dom().contains(k2) && json_equal(
                json_view(*thing)->Object_0[k2],
                json_view(*value),
            ),
{
    let ghost t = json_view(*thing)->Object_0;
    let ghost tk = thing_keys@.map_values(|k: String| k@);
    let mut j: usize = 0;
    while j < thing_keys.len()
        invariant
            j <= thing_keys@.len(),
            tk == thing_keys@.map_values(|k: String| k@),
            tk.to_set() == t.dom(),
            json_view(*thing) == JsonModel::Object(t),
            forall|s: int| 0 <= s < j ==> !json_equal(t[#[trigger] tk[s]], json_view(*value)),
        decreases thing_keys@.len() - j,
    {
        assert(t.dom().contains(tk[j as int])) by {
            assert(tk.to_set().contains(tk[j as int]));
        }
        let c = json_get(thing, thing_keys[j].as_str()).unwrap();
        if json_eq(c, value) {
            return true;
        }
        j = j + 1;
    }
    assert forall|k2: Seq<char>| #[trigger] t.dom().contains(k2) implies !json_equal(t[k2], json_view(*value)) by {
        assert(tk.to_set().contains(k2));
        let s = choose|s: int| 0 <= s < tk.len() && tk[s] == k2;
        assert(!json_equal(t[tk[s]], json_view(*value)));
    }
    false
}

/// Whether `thing` agrees with `reference` (see `json_subset_spec`).
pub fn json_subset(reference: &serde_json::Value, thing: &serde_json::Value) -> (r: bool)
    ensures
        r == json_subset_spec(json_view(*reference), json_view(*thing)),
{
    let ref_keys = match json_object_keys(reference) {
        Some(k) => k,
        None => {
            return true;
        },
    };
    let thing_keys = match json_object_keys(thing) {
        Some(k) => k,
        None => {
            return false;
        },
    };
    let ghost r = json_view(*reference)->Object_0;
    let ghost t = json_view(*thing)->Object_0;
    let ghost rk = ref_keys@.map_values(|k: String| k@);
    let ghost shared = r.dom().intersect(t.dom());
    let mut n: usize = 0;
    let mut i: usize = 0;
    while i < ref_keys.len()
        invariant
            i <= ref_keys@.len(),
            n <= i,
            rk == ref_keys@.map_values(|k: String| k@),
            rk.to_set() == r.dom(),
            json_view(*reference) == JsonModel::Object(r),
            json_view(*thing) == JsonModel::Object(t),
            shared == r.dom().intersect(t.dom()),
            forall|s: int| 0 <= s < i && #[trigger] t.dom().contains(rk[s]) ==> json_equal(r[rk[s]], t[rk[s]]),
            n == 0 <==> forall|s: int| 0 <= s < i ==> !#[trigger] t.dom().contains(rk[s]),
        decreases ref_keys@.len() - i,
    {
        assert(r.dom().contains(rk[i as int])) by {
            assert(rk.to_set().contains(rk[i as int]));
        }
        let value = json_get(reference, ref_keys[i].as_str()).unwrap();
        match json_get(thing, ref_keys[i].as_str()) {
            Some(candidate) => {
                n = n + 1;
                if !json_eq(value, candidate) {
                    assert(shared.contains(rk[i as int]));
                    return false;
                }
            },
            None => {},
        }
        i = i + 1;
    }
    assert(!exists|k: Seq<char>| #[trigger] shared.contains(k) && !json_equal(r[k], t[k])) by {
        assert forall|k: Seq<char>| #[trigger] shared.contains(k) implies json_equal(r[k], t[k]) by {
            assert(rk.to_set().contains(k));
            let s = choose|s: int| 0 <= s < rk.len() && rk[s] == k;
            assert(t.dom().contains(rk[s]));
        }
    }
    if n > 0 {
        proof {
            let s = choose|s: int| 0 <= s < ref_keys@.len() && #[trigger] t.dom().contains(rk[s]);
            assert(r.dom().contains(rk[s])) by {
                assert(rk.to_set().contains(rk[s]));
            }
            assert(shared.contains(rk[s]));
        }
        return true;
    }
    assert(!exists|k: Seq<char>| #[trigger] shared.contains(k)) by {
        assert forall|k: Seq<char>| !#[trigger] shared.contains(k) by {
            if shared.contains(k) {
                assert(rk.to_set().contains(k));
                let s = choose|s: int| 0 <= s < rk.len() && rk[s] == k;
                assert(t.dom().contains(rk[s]));
            }
        }
    }
    let mut i: usize = 0;
    while i < ref_keys.len()
        invariant
            i <= ref_keys@.len(),
            rk == ref_keys@.map_values(|k: String| k@),
            rk.to_set() == r.dom(),
            json_view(*reference) == JsonModel::Object(r),
            json_view(*thing) == JsonModel::Object(t),
            thing_keys@.map_values(|k: String| k@).to_set() == t.dom(),
            shared == r.dom().intersect(t.dom()),
            !exists|k: Seq<char>| #[trigger] shared.contains(k) && !json_equal(r[k], t[k]),
            !exists|k: Seq<char>| #[trigger] shared.contains(k),
            forall|s: int| 0 <= s < i ==> exists|k2: Seq<char>|
                #[trigger] t.dom().contains(k2) && json_equal(t[k2], r[#[trigger] rk[s]]),
        decreases ref_keys@.len() - i,
    {
        assert(r.dom().contains(rk[i as int])) by {
            assert(rk.to_set().contains(rk[i as int]));
        }
        let value = json_get(reference, ref_keys[i].as_str()).unwrap();
        if !occurs_among(value, thing, &thing_keys) {
            proof {
                let k = rk[i as int];
                assert(r.dom().contains(k));
                assert(!(exists|k2: Seq<char>| #[trigger] t.dom().contains(k2) && json_equal(t[k2], r[k])));
                assert(json_view(*reference)->Object_0 == r);
                assert(json_view(*thing)->Object_0 == t);
            }
            return false;
        }
        i = i + 1;
    }
    assert forall|k: Seq<char>| #[trigger] r.dom().contains(k) implies exists|k2: Seq<char>|
        #[trigger] t.dom().contains(k2) && json_equal(t[k2], r[k]) by {
        assert(rk.to_set().contains(k));
        let s = choose|s: int| 0 <= s < rk.len() && rk[s] == k;
        assert(rk[s] == k);
    }
    true
}

/// Whether a stored payload agrees with a reference payload: JSON payloads by
/// `json_subset_spec`, strings by equality, and any other pair agrees.
pub open spec fn compatible_spec(reference: Option<FlowPayload>, thing: FlowPayload) -> bool {
    match reference {
        None => true,
        Some(r) => match (r, thing) {
            (FlowPayload::Json(a), FlowPayload::Json(b)) => json_subset_spec(json_of_text(a@), json_of_text(b@)),
            (FlowPayload::String(a), FlowPayload::String(b)) => a@ == b@,
            _ => true,
        },
    }
}

/// Whether a stored payload agrees with a reference payload (see `compatible_spec`).
pub fn payload_compatible(reference: Option<&FlowPayload>, thing: &FlowPayload) -> (r: bool)
    ensures
        r == compatible_spec(
            match reference {
                Some(p) => Some(*p),
                None => None,
            },
            *thing,
        ),
{
    match reference {
        None => true,
        Some(reference) => match (reference, thing) {
            (FlowPayload::Json(a), FlowPayload::Json(b)) => json_subset(&a.into_json(), &b.into_json()),
            (FlowPayload::String(a), FlowPayload::String(b)) => *a == *b,
            _ => true,
        },
    }
}

/// The target key of a branch spec `target:source`: the trimmed part before the
/// first `:`, or the whole spec.
pub open spec fn target_key_spec(spec: Seq<char>) -> Seq<char> {
    match split_once_spec(spec, ':') {
        Some((a, _)) => trim_spec(a),
        None => spec,
    }
}

/// The source key of a branch spec `target:source`: the trimmed part after the
/// first `:`, or the whole spec.
pub open spec fn source_key_spec(spec: Seq<char>) -> Seq<char> {
    match split_once_spec(spec, ':') {
        Some((_, b)) => trim_spec(b),
        None => spec,
    }
}

/// The target key of a branch spec (see `target_key_spec`).
pub fn branch_target_key(spec: &str) -> (r: String)
    ensures
        r@ == target_key_spec(spec@),
{
    match split_once_char(spec, ':') {
        Some((a, _)) => trim(a.as_str()),
        None => owned(spec),
    }
}

/// The source key of a branch spec (see `source_key_spec`).
pub fn branch_source_key(spec: &str) -> (r: String)
    ensures
        r@ == source_key_spec(spec@),
{
    match split_once_char(spec, ':') {
        Some((_, b)) => trim(b.as_str()),
        None => owned(spec),
    }
}


/// The object that a list of branch specs `target:source` maps a source object
/// to, each spec in order copying the source member into the target key;
/// `None` when a source key is missing.
pub open spec fn mapped_spec(specs: Seq<Seq<char>>, src: Map<Seq<char>, JsonModel>) -> Option<
    Map<Seq<char>, JsonModel>,
>
    decreases specs.len(),
{
    if specs.len() == 0 {
        Some(Map::empty())
    } else {
        match mapped_spec(specs.drop_last(), src) {
            None => None,
            Some(m) => {
                let sp = specs.last();
                if src.dom().contains(source_key_spec(sp)) {
                    Some(m.insert(target_key_spec(sp), src[source_key_spec(sp)]))
                } else {
                    None
                }
            },
        }
    }
}

/// The JSON text that `map_json_payload` gives: the mapped object of a JSON
/// object payload; `None` for another payload or a missing source key.
pub open spec fn map_payload_spec(specs: Seq<Seq<char>>, source: FlowPayload) -> Option<Seq<char>> {
    match source {
        FlowPayload::Json(j) => match json_of_text(j@) {
            JsonModel::Object(o) => match mapped_spec(specs, o) {
                Some(m) => Some(json_text(JsonModel::Object(m))),
                None => None,
            },
            _ => None,
        },
        _ => None,
    }
}

proof fn lemma_mapped_none_extends(specs: Seq<Seq<char>>, n: int, o: Map<Seq<char>, JsonModel>)
    requires
        0 <= n <= specs.len(),
        mapped_spec(specs.subrange(0, n), o) is None,
    ensures
        mapped_spec(specs, o) is None,
    decreases specs.len() - n,
{
    if n < specs.len() {
        assert(specs.subrange(0, n + 1).drop_last() =~= specs.subrange(0, n));
        lemma_mapped_none_extends(specs, n + 1, o);
    } else {
        assert(specs.subrange(0, n) =~= specs);
    }
}

/// Maps a JSON object payload through branch specs (see `map_payload_spec`).
pub fn map_json_payload(branch_specs: &Vec<String>, source: &FlowPayload) -> (r: Option<FlowPayload>)
    ensures
        match map_payload_spec(branch_specs@.map_values(|x: String| x@), *source) {
            Some(t) => r matches Some(FlowPayload::Json(j)) && j@ == t,
            None => r is None,
        },
{
    let ghost specs = branch_specs@.map_values(|x: String| x@);
    let source_json = match source {
        FlowPayload::Json(j) => j.into_json(),
        _ => {
            return None;
        },
    };
    if json_kind(&source_json) != JsonKind::Object {
        return None;
    }
    let ghost o = json_view(source_json)->Object_0;
    let mut mapped = json_empty_object();
    let mut i: usize = 0;
    while i < branch_specs.len()
        invariant
            i <= branch_specs@.len(),
            specs == branch_specs@.map_values(|x: String| x@),
            json_view(source_json) == JsonModel::Object(o),
            source matches FlowPayload::Json(j) && json_of_text(j@) == JsonModel::Object(o),
            mapped_spec(specs.subrange(0, i as int), o) == Some(json_view(mapped)->Object_0),
            json_view(mapped) is Object,
        decreases branch_specs@.len() - i,
    {
        proof {
            assert(specs.subrange(0, i + 1).drop_last() =~= specs.subrange(0, i as int));
            assert(specs.subrange(0, i + 1).last() == branch_specs@[i as int]@);
        }
        let source_key = branch_source_key(branch_specs[i].as_str());
        let target_key = branch_target_key(branch_specs[i].as_str());
        match json_get(&source_json, source_key.as_str()) {
            Some(v) => {
                let value = json_clone(v);
                json_insert(&mut mapped, target_key, value);
            },
            None => {
                proof {
                    assert(mapped_spec(specs.subrange(0, i + 1), o) is None);
                    lemma_mapped_none_extends(specs, i + 1, o);
                }
                return None;
            },
        }
        i = i + 1;
    }
    assert(specs.subrange(0, branch_specs@.len() as int) =~= specs);
    assert(json_view(mapped) == JsonModel::Object(json_view(mapped)->Object_0));
    Some(FlowPayload::Json(FlowJson::new(json_to_string(&mapped))))
}

/// The payload that a state derived from a source flow takes: a JSON state
/// with branch specs maps the source payload, one without takes a JSON source
/// as it is; string and byte states take a source of their own type; a state
/// without payload takes none. `None` where the source does not fit.
pub open spec fn transcendent_spec(
    t: FlowPayloadType,
    branch: Option<Seq<Seq<char>>>,
    source: FlowPayload,
    r: Option<FlowPayload>,
) -> bool {
    match t {
        FlowPayloadType::Json => match branch {
            Some(specs) => match map_payload_spec(specs, source) {
                Some(text) => r matches Some(FlowPayload::Json(j)) && j@ == text,
                None => r is None,
            },
            None => if source is Json {
                r is Some && same_payload(source, r->0)
            } else {
                r is None
            },
        },
        FlowPayloadType::String => if source is String {
            r is Some && same_payload(source, r->0)
        } else {
            r is None
        },
        FlowPayloadType::Bytes => if source is Bytes {
            r is Some && same_payload(source, r->0)
        } else {
            r is None
        },
        FlowPayloadType::Empty => r == Some(FlowPayload::Empty(false)),
    }
}

pub open spec fn opt_strings(v: Option<Vec<String>>) -> Option<Seq<Seq<char>>> {
    match v {
        Some(x) => Some(x@.map_values(|s: String| s@)),
        None => None,
    }
}

/// The payload of a state that depends on a source flow (see `transcendent_spec`).
pub fn transcendent_payload_for(def: &FlowDefinitionBase, source_payload: &FlowPayload) -> (r: Option<FlowPayload>)
    ensures
        transcendent_spec(def.payload, opt_strings(def.branch), *source_payload, r),
{
    match def.payload {
        FlowPayloadType::Json => {
            if let Some(branch_specs) = &def.branch {
                map_json_payload(branch_specs, source_payload)
            } else if let FlowPayload::Json(_) = source_payload {
                Some(source_payload.duplicate())
            } else {
                None
            }
        },
        FlowPayloadType::String => {
            if let FlowPayload::String(_) = source_payload {
                Some(source_payload.duplicate())
            } else {
                None
            }
        },
        FlowPayloadType::Bytes => {
            if let FlowPayload::Bytes(_) = source_payload {
                Some(source_payload.duplicate())
            } else {
                None
            }
        },
        FlowPayloadType::Empty => Some(FlowPayload::Empty(false)),
    }
}

/// The payload a state of a type starts with: an empty JSON object, an empty
/// string, no bytes, or none.
pub open spec fn default_payload_spec(t: FlowPayloadType, p: FlowPayload) -> bool {
    match t {
        FlowPayloadType::Json => p matches FlowPayload::Json(j) && j@ == json_text(JsonModel::Object(Map::empty())),
        FlowPayloadType::String => p matches FlowPayload::String(s) && s@.len() == 0,
        FlowPayloadType::Bytes => p matches FlowPayload::Bytes(b) && b@.len() == 0,
        FlowPayloadType::Empty => p == FlowPayload::Empty(false),
    }
}

/// The payload a state of a type starts with (see `default_payload_spec`).
pub fn default_payload_for_type(t: FlowPayloadType) -> (r: FlowPayload)
    ensures
        default_payload_spec(t, r),
{
    match t {
        FlowPayloadType::Json => FlowPayload::Json(FlowJson::new(json_to_string(&json_empty_object()))),
        FlowPayloadType::String => FlowPayload::String(String::new()),
        FlowPayloadType::Bytes => FlowPayload::Bytes(Vec::new()),
        FlowPayloadType::Empty => FlowPayload::Empty(false),
    }
}

/// The object that `Many(keys)` builds: key `i` holds line `i`, for the keys
/// that have a line.
pub open spec fn many_spec(keys: Seq<Seq<char>>, lines: Seq<Seq<char>>) -> Map<Seq<char>, JsonModel>
    decreases keys.len(),
{
    if keys.len() == 0 {
        Map::empty()
    } else {
        let m = many_spec(keys.drop_last(), lines);
        let i = keys.len() - 1;
        if i < lines.len() {
            m.insert(keys[i], JsonModel::Str(lines[i]))
        } else {
            m
        }
    }
}

/// The object holding the first line under `key`, or the empty object.
pub open spec fn first_line_object(key: Seq<char>, lines: Seq<Seq<char>>) -> Map<Seq<char>, JsonModel> {
    if lines.len() > 0 {
        Map::empty().insert(key, JsonModel::Str(lines[0]))
    } else {
        Map::empty()
    }
}

/// The JSON text of the root insert: the single line as JSON where it parses,
/// or as a JSON string where it does not; several lines (or none) as an array
/// of strings.
pub open spec fn root_text_spec(lines: Seq<Seq<char>>) -> Seq<char> {
    if lines.len() == 1 {
        match parse_json(lines[0]) {
            Some(m) => json_text(m),
            None => json_text(JsonModel::Str(lines[0])),
        }
    } else {
        json_text(JsonModel::Array(lines.map_values(|l: Seq<char>| JsonModel::Str(l))))
    }
}

/// Whether an insert spec is `One("root")`.
pub open spec fn is_root_insert(insert: Option<AutoPayloadInsert>) -> bool {
    insert matches Some(AutoPayloadInsert::One(k)) && k@ == "root"@
}

/// The payload built from the output of an automatic payload command.
pub open spec fn auto_spec(
    t: FlowPayloadType,
    insert: Option<AutoPayloadInsert>,
    output: Seq<char>,
    output_bytes: Seq<u8>,
    p: FlowPayload,
) -> bool {
    let lines = payload_lines_spec(output);
    match t {
        FlowPayloadType::Json => p matches FlowPayload::Json(j) && j@ == if is_root_insert(insert) {
            root_text_spec(lines)
        } else {
            json_text(
                JsonModel::Object(
                    match insert {
                        Some(AutoPayloadInsert::One(k)) => first_line_object(k@, lines),
                        Some(AutoPayloadInsert::Many(keys)) => many_spec(keys@.map_values(|k: String| k@), lines),
                        None => first_line_object("value"@, lines),
                    },
                ),
            )
        },
        FlowPayloadType::String => p matches FlowPayload::String(s) && s@ == join_spec(lines, "\n"@),
        FlowPayloadType::Bytes => p matches FlowPayload::Bytes(b) && b@ == output_bytes,
        FlowPayloadType::Empty => p == FlowPayload::Empty(false),
    }
}

/// The bytes of a text (`str::as_bytes`, copied).
pub fn text_bytes(s: &str) -> (r: Vec<u8>)
    ensures
        r@ == s.spec_bytes(),
{
    let b = s.as_bytes();
    let mut out: Vec<u8> = Vec::new();
    let mut i: usize = 0;
    while i < b.len()
        invariant
            i <= b@.len(),
            b@ == s.spec_bytes(),
            out@ == b@.subrange(0, i as int),
        decreases b@.len() - i,
    {
        out.push(b[i]);
        i = i + 1;
        assert(out@ =~= b@.subrange(0, i as int));
    }
    assert(out@ =~= b@);
    out
}

/// The JSON string values of the lines.
fn string_values(lines: &Vec<String>) -> (r: Vec<serde_json::Value>)
    ensures
        r@.map_values(|x: serde_json::Value| json_view(x)) == lines@.map_values(|x: String| x@).map_values(
            |l: Seq<char>| JsonModel::Str(l),
        ),
{
    let mut out: Vec<serde_json::Value> = Vec::new();
    let mut i: usize = 0;
    while i < lines.len()
        invariant
            i <= lines@.len(),
            out@.map_values(|x: serde_json::Value| json_view(x)) == lines@.subrange(0, i as int).map_values(
                |x: String| x@,
            ).map_values(|l: Seq<char>| JsonModel::Str(l)),
        decreases lines@.len() - i,
    {
        let ghost before = out@;
        let v = json_string(lines[i].clone());
        out.push(v);
        assert(out@.map_values(|x: serde_json::Value| json_view(x)) =~= before.map_values(|x: serde_json::Value| json_view(x)).push(JsonModel::Str(lines@[i as int]@)));
        i = i + 1;
        assert(out@.map_values(|x: serde_json::Value| json_view(x)) =~= lines@.subrange(0, i as int).map_values(
            |x: String| x@,
        ).map_values(|l: Seq<char>| JsonModel::Str(l)));
    }
    assert(lines@.subrange(0, lines@.len() as int) =~= lines@);
    out
}

/// The payload built from the output of an automatic payload command; where
/// the definition has no such command, the default payload of its type. The
/// caller runs the command and passes what it printed (empty when the
/// configuration names no command).
pub fn auto_payload_for(def: &FlowDefinitionBase, output: &str) -> (r: FlowPayload)
    ensures
        match def.auto_payload {
            None => default_payload_spec(def.payload, r),
            Some(cfg) => auto_spec(def.payload, cfg.insert, output@, output.spec_bytes(), r),
        },
{
    let cfg = match &def.auto_payload {
        None => {
            return default_payload_for_type(def.payload);
        },
        Some(c) => c,
    };
    let lines = payload_lines(output);
    let ghost lv = lines@.map_values(|x: String| x@);
    match def.payload {
        FlowPayloadType::Json => {
            let mut obj = json_empty_object();
            match &cfg.insert {
                Some(AutoPayloadInsert::One(key)) => {
                    if str_eq(key.as_str(), "root") {
                        if lines.len() == 1 {
                            assert(lv[0] == lines@[0]@);
                            match json_parse(lines[0].as_str()) {
                                Some(v) => {
                                    return FlowPayload::Json(FlowJson::new(json_to_string(&v)));
                                },
                                None => {
                                    return FlowPayload::Json(
                                        FlowJson::new(json_to_string(&json_string(lines[0].clone()))),
                                    );
                                },
                            }
                        }
                        let arr = json_array(string_values(&lines));
                        return FlowPayload::Json(FlowJson::new(json_to_string(&arr)));
                    }
                    if lines.len() > 0 {
                        assert(lv[0] == lines@[0]@);
                        json_insert(&mut obj, key.clone(), json_string(lines[0].clone()));
                        assert(json_view(obj)->Object_0 =~= first_line_object(key@, lv));
                    } else {
                        assert(json_view(obj)->Object_0 =~= first_line_object(key@, lv));
                    }
                },
                Some(AutoPayloadInsert::Many(keys)) => {
                    let ghost kv = keys@.map_values(|k: String| k@);
                    let mut i: usize = 0;
                    while i < keys.len()
                        invariant
                            i <= keys@.len(),
                            kv == keys@.map_values(|k: String| k@),
                            lv == lines@.map_values(|x: String| x@),
                            json_view(obj) == JsonModel::Object(many_spec(kv.subrange(0, i as int), lv)),
                        decreases keys@.len() - i,
                    {
                        proof {
                            assert(kv.subrange(0, i + 1).drop_last() =~= kv.subrange(0, i as int));
                            assert(kv.subrange(0, i + 1)[i as int] == keys@[i as int]@);
                        }
                        if i < lines.len() {
                            assert(lv[i as int] == lines@[i as int]@);
                            json_insert(&mut obj, keys[i].clone(), json_string(lines[i].clone()));
                        }
                        i = i + 1;
                    }
                    assert(kv.subrange(0, keys@.len() as int) =~= kv);
                },
                None => {
                    proof {
                        reveal_strlit("root");
                        reveal_strlit("value");
                    }
                    if lines.len() > 0 {
                        assert(lv[0] == lines@[0]@);
                        json_insert(&mut obj, owned("value"), json_string(lines[0].clone()));
                        assert(json_view(obj)->Object_0 =~= first_line_object("value"@, lv));
                    } else {
                        assert(json_view(obj)->Object_0 =~= first_line_object("value"@, lv));
                    }
                },
            }
            FlowPayload::Json(FlowJson::new(json_to_string(&obj)))
        },
        FlowPayloadType::String => FlowPayload::String(join(&lines, "\n")),
        FlowPayloadType::Bytes => FlowPayload::Bytes(text_bytes(output)),
        FlowPayloadType::Empty => FlowPayload::Empty(false),
    }
}

/// Whether a payload has the type a definition declares.
pub open spec fn fits_type(p: FlowPayload, t: FlowPayloadType) -> bool {
    match p {
        FlowPayload::Bytes(_) => t == FlowPayloadType::Bytes,
        FlowPayload::String(_) => t == FlowPayloadType::String,
        FlowPayload::Json(_) => t == FlowPayloadType::Json,
        FlowPayload::Empty(_) => t == FlowPayloadType::Empty,
    }
}

/// The payload check of `Store::check_flow`: no payload, or one of the declared type.
pub fn payload_fits(payload: &Option<FlowPayload>, t: FlowPayloadType) -> (r: bool)
    ensures
        r == match payload {
            None => true,
            Some(p) => fits_type(*p, t),
        },
{
    match payload {
        None => true,
        Some(FlowPayload::Bytes(_)) => t == FlowPayloadType::Bytes,
        Some(FlowPayload::String(_)) => t == FlowPayloadType::String,
        Some(FlowPayload::Json(_)) => t == FlowPayloadType::Json,
        Some(FlowPayload::Empty(_)) => t == FlowPayloadType::Empty,
    }
}


/// The keys that branch a JSON state: the target keys of its branch specs, or `id`.
pub open spec fn branch_keys_spec(specs: Option<Seq<Seq<char>>>) -> Seq<Seq<char>> {
    match specs {
        Some(v) => v.map_values(|sp: Seq<char>| target_key_spec(sp)),
        None => seq!["id"@],
    }
}

/// The branch key of a payload: that of a JSON payload's value, none otherwise.
pub open spec fn payload_key_spec(p: FlowPayload, keys: Seq<Seq<char>>) -> Option<Seq<Seq<char>>> {
    match p {
        FlowPayload::Json(j) => branch_key_spec(json_of_text(j@), keys),
        _ => None,
    }
}

/// Whether branch `b` has the branch key `k`.
pub open spec fn has_key(b: FlowInstance, keys: Seq<Seq<char>>, k: Seq<Seq<char>>) -> bool {
    payload_key_spec(b.payload, keys) == Some(k)
}

/// The first branch with key `k`, if any.
pub open spec fn first_with_key(entry: Seq<FlowInstance>, keys: Seq<Seq<char>>, k: Seq<Seq<char>>) -> Option<int> {
    if exists|i: int| 0 <= i < entry.len() && has_key(#[trigger] entry[i], keys, k) {
        Some(choose|i: int| 0 <= i < entry.len() && has_key(entry[i], keys, k) && forall|t: int| 0 <= t < i ==> !has_key(#[trigger] entry[t], keys, k))
    } else {
        None
    }
}

proof fn lemma_first_with_key(entry: Seq<FlowInstance>, keys: Seq<Seq<char>>, k: Seq<Seq<char>>, i: int)
    requires
        0 <= i < entry.len(),
        has_key(entry[i], keys, k),
        forall|t: int| 0 <= t < i ==> !has_key(#[trigger] entry[t], keys, k),
    ensures
        first_with_key(entry, keys, k) == Some(i),
{
    let j = choose|j: int| 0 <= j < entry.len() && has_key(entry[j], keys, k) && forall|t: int| 0 <= t < j ==> !has_key(#[trigger] entry[t], keys, k);
    if j < i {
        assert(!has_key(entry[j], keys, k));
    }
    if i < j {
        assert(!has_key(entry[i], keys, k));
    }
}

/// How applying a state payload changes the branches of the state: a payload
/// that is not JSON replaces every branch; a JSON payload without the branch
/// keys is refused and changes nothing; a JSON payload whose key an existing
/// branch has is merged into the first such branch (its members win), and
/// otherwise becomes a new branch at the end.
pub open spec fn apply_spec(
    old: Seq<FlowInstance>,
    new: Seq<FlowInstance>,
    instance: FlowInstance,
    specs: Option<Seq<Seq<char>>>,
    ok: bool,
) -> bool {
    let keys = branch_keys_spec(specs);
    match instance.payload {
        FlowPayload::Json(nj) => match payload_key_spec(instance.payload, keys) {
            None => !ok && new == old,
            Some(k) => ok && match first_with_key(old, keys, k) {
                Some(i) => {
                    &&& new.len() == old.len()
                    &&& forall|t: int| 0 <= t < old.len() && t != i ==> new[t] == old[t]
                    &&& new[i].name@ == old[i].name@
                    &&& new[i].flow_type == old[i].flow_type
                    &&& old[i].payload matches FlowPayload::Json(oj) && new[i].payload matches FlowPayload::Json(mj)
                        && mj@ == json_text(merge_spec(json_of_text(oj@), json_of_text(nj@)))
                },
                None => {
                    &&& new.len() == old.len() + 1
                    &&& new.drop_last() == old
                    &&& new.last().name@ == instance.name@
                    &&& new.last().flow_type == instance.flow_type
                    &&& same_payload(instance.payload, new.last().payload)
                },
            },
        },
        _ => {
            &&& ok
            &&& new.len() == 1
            &&& new[0].name@ == instance.name@
            &&& new[0].flow_type == instance.flow_type
            &&& same_payload(instance.payload, new[0].payload)
        },
    }
}

/// The branch keys of a state definition's branch specs (see `branch_keys_spec`).
pub fn branch_keys(specs: &Option<Vec<String>>) -> (r: Vec<String>)
    ensures
        r@.map_values(|x: String| x@) == branch_keys_spec(opt_strings(*specs)),
{
    match specs {
        Some(v) => {
            let ghost sv = v@.map_values(|x: String| x@);
            let mut out: Vec<String> = Vec::new();
            let mut i: usize = 0;
            while i < v.len()
                invariant
                    i <= v@.len(),
                    sv == v@.map_values(|x: String| x@),
                    out@.map_values(|x: String| x@) == sv.subrange(0, i as int).map_values(|sp: Seq<char>| target_key_spec(sp)),
                decreases v@.len() - i,
            {
                let ghost before = out@;
                let t = branch_target_key(v[i].as_str());
                out.push(t);
                assert(out@.map_values(|x: String| x@) =~= before.map_values(|x: String| x@).push(t@));
                assert(sv.subrange(0, i + 1) =~= sv.subrange(0, i as int).push(sv[i as int]));
                assert(out@.map_values(|x: String| x@) =~= sv.subrange(0, i + 1).map_values(|sp: Seq<char>| target_key_spec(sp)));
                i = i + 1;
            }
            assert(sv.subrange(0, v@.len() as int) =~= sv);
            out
        },
        None => {
            let mut out: Vec<String> = Vec::new();
            out.push(owned("id"));
            assert(out@.map_values(|x: String| x@) =~= seq!["id"@]);
            out
        },
    }
}

/// Applies a state payload to the branches of the state (the branch logic of
/// setting a state; see `apply_spec`). Returns whether the payload was accepted.
pub fn apply_to_branches(entry: &mut Vec<FlowInstance>, instance: &FlowInstance, specs: &Option<Vec<String>>) -> (ok: bool)
    ensures
        apply_spec(old(entry)@, final(entry)@, *instance, opt_strings(*specs), ok),
{
    let new_json = match &instance.payload {
        FlowPayload::Json(j) => j,
        _ => {
            entry.clear();
            entry.push(instance.duplicate());
            return true;
        },
    };
    let keys = branch_keys(specs);
    let ghost kv = keys@.map_values(|x: String| x@);
    let new_value = new_json.into_json();
    let new_key = match json_branch_key(&new_value, &keys) {
        Some(k) => k,
        None => {
            return false;
        },
    };
    let ghost k = new_key@.map_values(|x: String| x@);
    let ghost old_entry = entry@;
    let mut i: usize = 0;
    while i < entry.len()
        invariant
            entry@ == old_entry,
            old_entry == old(entry)@,
            i <= entry@.len(),
            kv == keys@.map_values(|x: String| x@),
            kv == branch_keys_spec(opt_strings(*specs)),
            payload_key_spec(instance.payload, kv) == Some(k),
            instance.payload == FlowPayload::Json(*new_json),
            json_view(new_value) == json_of_text(new_json@),
            k == new_key@.map_values(|x: String| x@),
            forall|t: int| 0 <= t < i ==> !has_key(#[trigger] entry@[t], kv, k),
        decreases entry@.len() - i,
    {
        if let FlowPayload::Json(json) = &entry[i].payload {
            let existing = json.into_json();
            let ek = json_branch_key(&existing, &keys);
            let same = match &ek {
                Some(ek) => strings_eq(ek, &new_key),
                None => false,
            };
            if same {
                proof {
                    assert(has_key(old_entry[i as int], kv, k));
                    lemma_first_with_key(old_entry, kv, k, i as int);
                }
                let mut merged = existing;
                merge_json(&mut merged, &new_value);
                let merged_text = json_to_string(&merged);
                let replacement = FlowInstance {
                    name: entry[i].name.clone(),
                    payload: FlowPayload::Json(FlowJson::new(merged_text)),
                    flow_type: entry[i].flow_type,
                };
                let ghost rep = replacement;
                assert(old_entry[i as int].payload == FlowPayload::Json(*json));
                assert(instance.payload == FlowPayload::Json(*new_json));
                assert(json_view(existing) == json_of_text(json@));
                assert(rep.name@ == old_entry[i as int].name@);
                entry.set(i, replacement);
                assert(entry@ == old_entry.update(i as int, rep));
                assert(first_with_key(old_entry, kv, k) == Some(i as int));
                return true;
            }
            assert(!has_key(old_entry[i as int], kv, k));
        } else {
            assert(!has_key(old_entry[i as int], kv, k));
        }
        i = i + 1;
    }
    proof {
        assert(!(exists|t: int| 0 <= t < old_entry.len() && has_key(#[trigger] old_entry[t], kv, k)));
    }
    entry.push(instance.duplicate());
    assert(entry@.drop_last() =~= old_entry);
    true
}

/// The branches that a filter does not select, in order.
pub open spec fn kept_spec(bs: Seq<FlowInstance>, f: FlowMatchOperation) -> Seq<FlowInstance>
    decreases bs.len(),
{
    if bs.len() == 0 {
        Seq::empty()
    } else {
        let rest = kept_spec(bs.drop_last(), f);
        if match_spec(f, bs.last().payload) { rest } else { rest.push(bs.last()) }
    }
}

/// The branches that a filter selects, in order.
pub open spec fn removed_spec(bs: Seq<FlowInstance>, f: FlowMatchOperation) -> Seq<FlowInstance>
    decreases bs.len(),
{
    if bs.len() == 0 {
        Seq::empty()
    } else {
        let rest = removed_spec(bs.drop_last(), f);
        if match_spec(f, bs.last().payload) { rest.push(bs.last()) } else { rest }
    }
}

/// Splits the branches of a state into those to keep and those to remove
/// (the split of removing a state): with a filter, the branches it
/// selects are removed; without one, all are.
pub fn partition_branches(branches: Vec<FlowInstance>, filter: &Option<FlowMatchOperation>) -> (r: (
    Vec<FlowInstance>,
    Vec<FlowInstance>,
))
    ensures
        match filter {
            Some(f) => r.0@ == kept_spec(branches@, *f) && r.1@ == removed_spec(branches@, *f),
            None => r.0@.len() == 0 && r.1@ == branches@,
        },
{
    let f = match filter {
        Some(f) => f,
        None => {
            return (Vec::new(), branches);
        },
    };
    let ghost all = branches@;
    let mut keep: Vec<FlowInstance> = Vec::new();
    let mut remove: Vec<FlowInstance> = Vec::new();
    let mut rest = branches;
    let total = rest.len();
    let mut n: usize = 0;
    proof {
        assert(all.subrange(0, 0) =~= Seq::<FlowInstance>::empty());
    }
    while rest.len() > 0
        invariant
            n + rest@.len() == all.len(),
            total == all.len(),
            rest@ == all.subrange(n as int, all.len() as int),
            keep@ == kept_spec(all.subrange(0, n as int), *f),
            remove@ == removed_spec(all.subrange(0, n as int), *f),
        decreases rest@.len(),
    {
        let b = rest.remove(0);
        proof {
            assert(b == all[n as int]);
            assert(all.subrange(0, n + 1).drop_last() =~= all.subrange(0, n as int));
            assert(all.subrange(0, n + 1).last() == all[n as int]);
        }
        if match_operation(f, &b.payload) {
            remove.push(b);
        } else {
            keep.push(b);
        }
        n = n + 1;
    }
    assert(all.subrange(0, n as int) =~= all);
    (keep, remove)
}

/// The key that guards against applying the same state payload twice in one change:
/// `apply::NAME::SIGNATURE`.
pub fn apply_guard_key(name: &str, payload: &Option<FlowPayload>) -> (r: String)
    ensures
        r@ == "apply::"@ + name@ + "::"@ + signature_spec(*payload),
{
    let a = concat("apply::", name);
    let b = concat(a.as_str(), "::");
    concat(b.as_str(), payload_signature(payload).as_str())
}

/// The key that guards against reverting the same branch twice in one change:
/// `revert::NAME::SIGNATURE`.
pub fn revert_guard_key(name: &str, payload: &FlowPayload) -> (r: String)
    ensures
        r@ == "revert::"@ + name@ + "::"@ + signature_spec(Some(*payload)),
{
    let a = concat("revert::", name);
    let b = concat(a.as_str(), "::");
    let p = Some(payload.duplicate());
    let sig = payload_signature(&p);
    proof {
        assert(signature_spec(p) == signature_spec(Some(*payload)));
    }
    concat(b.as_str(), sig.as_str())
}

/// Payloads that hold the same data are matched alike.
pub proof fn lemma_match_same_payload(m: FlowMatchOperation, a: FlowPayload, b: FlowPayload)
    requires
        same_payload(a, b),
    ensures
        match_spec(m, a) == match_spec(m, b),
{
}

/// A condition holds alike of instances with the same name, type and payload data.
pub proof fn lemma_condition_same_payload(cond: FlowItem, a: FlowInstance, b: FlowInstance)
    requires
        a.name@ == b.name@,
        a.flow_type == b.flow_type,
        same_payload(a.payload, b.payload),
    ensures
        condition_spec(cond, a) == condition_spec(cond, b),
{
    match cond {
        FlowItem::Detailed { state, signal, target, branch } => {
            match branch {
                Some(m) => lemma_match_same_payload(m, a.payload, b.payload),
                None => {},
            }
            match target {
                Some(m) => lemma_match_same_payload(m, a.payload, b.payload),
                None => {},
            }
        },
        _ => {},
    }
}

/// Payloads that hold the same data are of the same type.
pub proof fn lemma_fits_same_payload(a: FlowPayload, b: FlowPayload)
    requires
        same_payload(a, b),
    ensures
        forall|t: FlowPayloadType| fits_type(a, t) == fits_type(b, t),
{
}

/// A state condition with a branch matcher holds of a flow only where the flow
/// is that state and the matcher accepts its payload.
pub proof fn law_state_condition_needs_branch(
    state: String,
    signal: Option<String>,
    target: Option<FlowMatchOperation>,
    branch: FlowMatchOperation,
    trigger: FlowInstance,
)
    ensures
        condition_spec(FlowItem::Detailed { state: Some(state), signal, target, branch: Some(branch) }, trigger) ==> {
            &&& trigger.flow_type == FlowType::State
            &&& trigger.name@ == state@
            &&& match_spec(branch, trigger.payload)
        },
{
}

/// A state condition whose branch matcher is a text holds of that state with
/// a text payload exactly where the payload is that text.
pub proof fn law_state_condition_text_branch(
    state: String,
    signal: Option<String>,
    target: Option<FlowMatchOperation>,
    text: String,
    name: String,
    payload: String,
)
    ensures
        condition_spec(
            FlowItem::Detailed { state: Some(state), signal, target, branch: Some(FlowMatchOperation::Eq(text)) },
            FlowInstance { name, payload: FlowPayload::String(payload), flow_type: FlowType::State },
        ) <==> (name@ == state@ && payload@ == text@),
{
}

/// A signal condition with a target matcher holds of a flow only where the
/// flow is that signal and the matcher accepts its payload.
pub proof fn law_signal_condition_needs_target(signal: String, target: FlowMatchOperation, branch: Option<FlowMatchOperation>, trigger: FlowInstance)
    ensures
        condition_spec(FlowItem::Detailed { state: None, signal: Some(signal), target: Some(target), branch }, trigger) ==> {
            &&& trigger.flow_type == FlowType::Signal
            &&& trigger.name@ == signal@
            &&& match_spec(target, trigger.payload)
        },
{
}

/// A text matcher accepts a text payload exactly where the payload is that text.
pub proof fn law_text_matcher(text: String, payload: String)
    ensures
        match_spec(FlowMatchOperation::Eq(text), FlowPayload::String(payload)) <==> payload@ == text@,
{
}

/// The binary option accepts exactly byte payloads; a matcher with no option
/// set accepts nothing; a containment matcher accepts a text payload exactly
/// where the text occurs in it, and never bytes or an empty payload.
pub proof fn law_option_matchers(p: FlowPayload, pat: String, filter: Option<serde_json::Value>, s: String, b: Vec<u8>, e: bool)
    ensures
        match_spec(FlowMatchOperation::Options { binary: Some(true), contains: Some(pat), filter }, p) <==> p is Bytes,
        !match_spec(FlowMatchOperation::Options { binary: None, contains: None, filter: None }, p),
        match_spec(FlowMatchOperation::Options { binary: None, contains: Some(pat), filter }, FlowPayload::String(s))
            <==> exists|i: int| 0 <= i && i + pat@.len() <= s@.len() && #[trigger] s@.subrange(i, i + pat@.len()) == pat@,
        !match_spec(FlowMatchOperation::Options { binary: None, contains: Some(pat), filter }, FlowPayload::Bytes(b)),
        !match_spec(FlowMatchOperation::Options { binary: None, contains: Some(pat), filter }, FlowPayload::Empty(e)),
{
}

/// A JSON value that is neither an object nor an array.
pub open spec fn json_scalar(v: JsonModel) -> bool {
    !(v is Object) && !(v is Array)
}

/// A JSON filter object accepts a JSON object payload that holds each of the
/// filter's members, with an equal value (for members whose value is neither
/// an object nor an array), whatever other members the payload has.
pub proof fn law_filter_accepts_payload_holding_it(filter: serde_json::Value, payload: FlowJson)
    requires
        json_view(filter) is Object,
        json_of_text(payload@) is Object,
        forall|k: Seq<char>| #[trigger] json_view(filter)->Object_0.dom().contains(k) ==> {
            let fv = json_view(filter)->Object_0[k];
            &&& json_of_text(payload@)->Object_0.dom().contains(k)
            &&& json_scalar(fv)
            &&& json_equal(fv, json_of_text(payload@)->Object_0[k])
        },
    ensures
        match_spec(
            FlowMatchOperation::Options { binary: None, contains: None, filter: Some(filter) },
            FlowPayload::Json(payload),
        ),
{
    let fm = json_view(filter)->Object_0;
    let pm = json_of_text(payload@)->Object_0;
    assert forall|k: Seq<char>| #[trigger] fm.dom().contains(k) implies pm.dom().contains(k) && subset_spec(fm[k], pm[k]) by {
        let fv = fm[k];
        assert(json_scalar(fv));
        match fv {
            JsonModel::Object(_) => {},
            JsonModel::Array(_) => {},
            _ => {},
        }
    }
}

/// Accepting grows with the payload: a JSON filter object that accepts a JSON
/// object payload accepts every payload that holds the same members and more.
pub proof fn law_filter_accepts_larger_payload(filter: serde_json::Value, small: FlowJson, large: FlowJson)
    requires
        json_view(filter) is Object,
        json_of_text(small@) is Object,
        json_of_text(large@) is Object,
        forall|k: Seq<char>| #[trigger] json_of_text(small@)->Object_0.dom().contains(k) ==> {
            &&& json_of_text(large@)->Object_0.dom().contains(k)
            &&& json_of_text(large@)->Object_0[k] == json_of_text(small@)->Object_0[k]
        },
        match_spec(FlowMatchOperation::Options { binary: None, contains: None, filter: Some(filter) }, FlowPayload::Json(small)),
    ensures
        match_spec(FlowMatchOperation::Options { binary: None, contains: None, filter: Some(filter) }, FlowPayload::Json(large)),
{
    let fm = json_view(filter)->Object_0;
    let sm = json_of_text(small@)->Object_0;
    let lm = json_of_text(large@)->Object_0;
    assert forall|k: Seq<char>| #[trigger] fm.dom().contains(k) implies lm.dom().contains(k) && subset_spec(fm[k], lm[k]) by {
        assert(sm.dom().contains(k) && subset_spec(fm[k], sm[k]));
        assert(lm[k] == sm[k]);
    }
}

/// Two objects that share no key agree only where each value of the reference
/// occurs among the values of the other: one value that occurs nowhere there
/// makes them disagree.
pub proof fn law_json_subset_disjoint_needs_values(r: Map<Seq<char>, JsonModel>, t: Map<Seq<char>, JsonModel>, k: Seq<char>)
    requires
        forall|x: Seq<char>| !(#[trigger] r.dom().contains(x) && t.dom().contains(x)),
        r.dom().contains(k),
        forall|k2: Seq<char>| #[trigger] t.dom().contains(k2) ==> !json_equal(t[k2], r[k]),
    ensures
        !json_subset_spec(JsonModel::Object(r), JsonModel::Object(t)),
{
    let shared = r.dom().intersect(t.dom());
    assert forall|x: Seq<char>| !#[trigger] shared.contains(x) by {
        assert(!(r.dom().contains(x) && t.dom().contains(x)));
    }
    assert(!exists|x: Seq<char>| #[trigger] shared.contains(x) && !json_equal(r[x], t[x]));
    assert(!exists|x: Seq<char>| #[trigger] shared.contains(x));
    assert(!exists|k2: Seq<char>| #[trigger] t.dom().contains(k2) && json_equal(t[k2], r[k]));
    assert(!(forall|x: Seq<char>| #[trigger] r.dom().contains(x) ==> exists|k2: Seq<char>|
        #[trigger] t.dom().contains(k2) && json_equal(t[k2], r[x])));
    let m = JsonModel::Object(r);
    let n = JsonModel::Object(t);
    assert(m->Object_0 == r);
    assert(n->Object_0 == t);
    assert(json_subset_spec(m, n) == (forall|x: Seq<char>| #[trigger] r.dom().contains(x) ==> exists|k2: Seq<char>|
        #[trigger] t.dom().contains(k2) && json_equal(t[k2], r[x])));
}

/// Two objects that share no key agree where every value of the reference
/// occurs among the values of the other.
pub proof fn law_json_subset_disjoint_values_found(r: Map<Seq<char>, JsonModel>, t: Map<Seq<char>, JsonModel>)
    requires
        forall|x: Seq<char>| !(#[trigger] r.dom().contains(x) && t.dom().contains(x)),
        forall|k: Seq<char>| #[trigger] r.dom().contains(k) ==> exists|k2: Seq<char>| #[trigger] t.dom().contains(k2) && json_equal(t[k2], r[k]),
    ensures
        json_subset_spec(JsonModel::Object(r), JsonModel::Object(t)),
{
    let shared = r.dom().intersect(t.dom());
    assert forall|x: Seq<char>| !#[trigger] shared.contains(x) by {
        assert(!(r.dom().contains(x) && t.dom().contains(x)));
    }
    assert(!exists|x: Seq<char>| #[trigger] shared.contains(x) && !json_equal(r[x], t[x]));
    assert(!exists|x: Seq<char>| #[trigger] shared.contains(x));
    let m = JsonModel::Object(r);
    let n = JsonModel::Object(t);
    assert(m->Object_0 == r);
    assert(n->Object_0 == t);
    assert(json_subset_spec(m, n) == (forall|x: Seq<char>| #[trigger] r.dom().contains(x) ==> exists|k2: Seq<char>|
        #[trigger] t.dom().contains(k2) && json_equal(t[k2], r[x])));
}

/// Two objects that share a key whose values differ disagree; where they share
/// keys and every shared value is equal, they agree.
pub proof fn law_json_subset_shared_keys(r: Map<Seq<char>, JsonModel>, t: Map<Seq<char>, JsonModel>, k: Seq<char>)
    requires
        r.dom().contains(k),
        t.dom().contains(k),
    ensures
        !json_equal(r[k], t[k]) ==> !json_subset_spec(JsonModel::Object(r), JsonModel::Object(t)),
        (forall|x: Seq<char>| #[trigger] r.dom().contains(x) && t.dom().contains(x) ==> json_equal(r[x], t[x]))
            ==> json_subset_spec(JsonModel::Object(r), JsonModel::Object(t)),
{
    let shared = r.dom().intersect(t.dom());
    assert(shared.contains(k));
}

} // verus!
