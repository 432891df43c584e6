//! Start order by dependencies (`after`): what starts first, in which order
//! the waiting items follow, and which are left with dependencies never met.
use crate::text::str_eq;
use vstd::prelude::*;

verus! {

/// An item to start: the name it is known by once started directly, the name
/// it is known by once started after waiting, and what it waits for.
pub struct DepItem {
    pub name: String,
    pub waited_name: String,
    pub after: Option<Vec<String>>,
}

/// The items in the order they start, and those that never can; by position
/// in the list of items.
pub struct StartOrder {
    pub order: Vec<usize>,
    pub unresolved: Vec<usize>,
}

pub open spec fn texts(v: Vec<String>) -> Seq<Seq<char>> {
    v@.map_values(|x: String| x@)
}

/// The names of an `after` list; none where there is no list.
pub open spec fn after_list(after: Option<Vec<String>>) -> Seq<Seq<char>> {
    match after {
        Some(a) => texts(a),
        None => Seq::empty(),
    }
}

/// What item `i` waits for.
pub open spec fn afters_of(items: Seq<DepItem>, i: int) -> Seq<Seq<char>> {
    after_list(items[i].after)
}

/// Every name of `afters` is among `names`.
pub open spec fn all_in(afters: Seq<Seq<char>>, names: Seq<Seq<char>>) -> bool {
    forall|j: int| 0 <= j < afters.len() ==> names.contains(#[trigger] afters[j])
}

/// The items without `after`, in order, with their names; and the others, in order.
pub open spec fn first_pass(items: Seq<DepItem>, k: int) -> (Seq<int>, Seq<Seq<char>>, Seq<int>)
    decreases k,
{
    if k <= 0 {
        (Seq::empty(), Seq::empty(), Seq::empty())
    } else {
        let (f, n, p) = first_pass(items, k - 1);
        if items[k - 1].after is None {
            (f.push(k - 1), n.push(items[k - 1].name@), p)
        } else {
            (f, n, p.push(k - 1))
        }
    }
}

/// One pass over the waiting items: each whose dependencies are all started
/// starts (and is then known by its waited name to the items after it); the
/// others keep waiting.
pub open spec fn scan(items: Seq<DepItem>, pending: Seq<int>, names: Seq<Seq<char>>) -> (Seq<int>, Seq<int>, Seq<Seq<char>>)
    decreases pending.len(),
{
    if pending.len() == 0 {
        (Seq::empty(), Seq::empty(), names)
    } else {
        let i = pending[0];
        if all_in(afters_of(items, i), names) {
            let (s, r, n) = scan(items, pending.drop_first(), names.push(items[i].waited_name@));
            (seq![i] + s, r, n)
        } else {
            let (s, r, n) = scan(items, pending.drop_first(), names);
            (s, seq![i] + r, n)
        }
    }
}

pub proof fn lemma_scan_len(items: Seq<DepItem>, pending: Seq<int>, names: Seq<Seq<char>>)
    ensures
        scan(items, pending, names).0.len() + scan(items, pending, names).1.len() == pending.len(),
    decreases pending.len(),
{
    if pending.len() > 0 {
        let i = pending[0];
        if all_in(afters_of(items, i), names) {
            lemma_scan_len(items, pending.drop_first(), names.push(items[i].waited_name@));
        } else {
            lemma_scan_len(items, pending.drop_first(), names);
        }
    }
}

/// Passes over the waiting items until one starts none: the items started,
/// in order, and those left waiting.
pub open spec fn rounds(items: Seq<DepItem>, pending: Seq<int>, names: Seq<Seq<char>>) -> (Seq<int>, Seq<int>)
    decreases pending.len(),
{
    let (s, r, n) = scan(items, pending, names);
    if s.len() == 0 {
        (Seq::empty(), pending)
    } else {
        proof {
            lemma_scan_len(items, pending, names);
        }
        let (o, u) = rounds(items, r, n);
        (s + o, u)
    }
}

/// The start order: the items without dependencies first, in order, then
/// the rounds of waiting items.
pub open spec fn start_order_spec(items: Seq<DepItem>) -> (Seq<int>, Seq<int>) {
    let (f, n, p) = first_pass(items, items.len() as int);
    let (o, u) = rounds(items, p, n);
    (f + o, u)
}

pub open spec fn positions(v: Vec<usize>) -> Seq<int> {
    v@.map_values(|x: usize| x as int)
}

fn contains_name(names: &Vec<String>, n: &str) -> (r: bool)
    ensures
        r == texts(*names).contains(n@),
{
    let ghost nv = texts(*names);
    let mut i: usize = 0;
    while i < names.len()
        invariant
            i <= names@.len(),
            nv == texts(*names),
            forall|j: int| 0 <= j < i ==> nv[j] != n@,
        decreases names@.len() - i,
    {
        if str_eq(names[i].as_str(), n) {
            assert(nv[i as int] == n@);
            return true;
        }
        i = i + 1;
    }
    false
}

fn ready(after: &Option<Vec<String>>, names: &Vec<String>) -> (r: bool)
    ensures
        r == all_in(after_list(*after), texts(*names)),
{
    match after {
        Some(a) => {
            assert(after_list(*after) == texts(*a));
            let ghost av = texts(*a);
            let mut j: usize = 0;
            while j < a.len()
                invariant
                    j <= a@.len(),
                    av == texts(*a),
                    after_list(*after) == av,
                    forall|t: int| 0 <= t < j ==> texts(*names).contains(#[trigger] av[t]),
                decreases a@.len() - j,
            {
                if !contains_name(names, a[j].as_str()) {
                    assert(!texts(*names).contains(av[j as int]));
                    assert(!all_in(texts(*a), texts(*names))) by {
                        if all_in(texts(*a), texts(*names)) {
                            assert(texts(*names).contains(texts(*a)[j as int]));
                        }
                    }
                    return false;
                }
                j = j + 1;
            }
            true
        },
        None => true,
    }
}

/// One pass over the waiting items (see `scan`).
fn scan_pass(items: &Vec<DepItem>, pending: &Vec<usize>, names: &mut Vec<String>) -> (r: (Vec<usize>, Vec<usize>))
    requires
        forall|t: int| 0 <= t < pending@.len() ==> 0 <= #[trigger] pending@[t] < items@.len(),
    ensures
        (positions(r.0), positions(r.1), texts(*final(names))) == scan(items@, positions(*pending), texts(*old(names))),
        forall|t: int| 0 <= t < r.1@.len() ==> 0 <= #[trigger] r.1@[t] < items@.len(),
{
    let ghost p = positions(*pending);
    let ghost n0 = texts(*names);
    let mut started: Vec<usize> = Vec::new();
    let mut waiting: Vec<usize> = Vec::new();
    let mut k: usize = 0;
    proof {
        assert(p.subrange(0, p.len() as int) =~= p);
        let rest = scan(items@, p, n0);
        assert(positions(started) + rest.0 =~= rest.0);
        assert(positions(waiting) + rest.1 =~= rest.1);
    }
    while k < pending.len()
        invariant
            k <= pending@.len(),
            p == positions(*pending),
            forall|t: int| 0 <= t < pending@.len() ==> 0 <= #[trigger] pending@[t] < items@.len(),
            forall|t: int| 0 <= t < waiting@.len() ==> 0 <= #[trigger] waiting@[t] < items@.len(),
            ({
                let rest = scan(items@, p.subrange(k as int, p.len() as int), texts(*names));
                scan(items@, p, n0) == (positions(started) + rest.0, positions(waiting) + rest.1, rest.2)
            }),
        decreases pending@.len() - k,
    {
        let i = pending[k];
        let ghost sub = p.subrange(k as int, p.len() as int);
        assert(sub[0] == i as int);
        assert(sub.drop_first() =~= p.subrange(k + 1, p.len() as int));
        let ghost nb = texts(*names);
        let ghost sb = positions(started);
        let ghost wb = positions(waiting);
        if ready(&items[i].after, names) {
            names.push(items[i].waited_name.clone());
            started.push(i);
            proof {
                assert(texts(*names) =~= nb.push(items@[i as int].waited_name@));
                assert(positions(started) =~= sb.push(i as int));
                let rest = scan(items@, p.subrange(k + 1, p.len() as int), texts(*names));
                assert(sb + (seq![i as int] + rest.0) =~= positions(started) + rest.0);
            }
        } else {
            waiting.push(i);
            proof {
                assert(positions(waiting) =~= wb.push(i as int));
                let rest = scan(items@, p.subrange(k + 1, p.len() as int), texts(*names));
                assert(wb + (seq![i as int] + rest.1) =~= positions(waiting) + rest.1);
            }
        }
        k = k + 1;
    }
    proof {
        let rest = scan(items@, p.subrange(k as int, p.len() as int), texts(*names));
        assert(p.subrange(k as int, p.len() as int) =~= Seq::<int>::empty());
        assert(positions(started) + rest.0 =~= positions(started));
        assert(positions(waiting) + rest.1 =~= positions(waiting));
    }
    (started, waiting)
}

/// The order in which the items start (see `start_order_spec`): first those
/// without dependencies, then, pass after pass, each whose dependencies have
/// all started, until a pass starts none; the rest never start.
pub fn start_order(items: &Vec<DepItem>) -> (r: StartOrder)
    ensures
        (positions(r.order), positions(r.unresolved)) == start_order_spec(items@),
{
    let mut names: Vec<String> = Vec::new();
    let mut order: Vec<usize> = Vec::new();
    let mut pending: Vec<usize> = Vec::new();
    let mut i: usize = 0;
    while i < items.len()
        invariant
            i <= items@.len(),
            (positions(order), texts(names), positions(pending)) == first_pass(items@, i as int),
            forall|t: int| 0 <= t < pending@.len() ==> 0 <= #[trigger] pending@[t] < i,
        decreases items@.len() - i,
    {
        let ghost ob = positions(order);
        let ghost nb = texts(names);
        let ghost pb = positions(pending);
        if items[i].after.is_none() {
            order.push(i);
            names.push(items[i].name.clone());
            assert(positions(order) =~= ob.push(i as int));
            assert(texts(names) =~= nb.push(items@[i as int].name@));
        } else {
            pending.push(i);
            assert(positions(pending) =~= pb.push(i as int));
        }
        i = i + 1;
    }
    let ghost free = positions(order);
    let ghost p0 = positions(pending);
    let ghost n0 = texts(names);
    let mut progress = true;
    while progress
        invariant
            free.len() <= order@.len(),
            positions(order).subrange(0, free.len() as int) == free,
            forall|t: int| 0 <= t < pending@.len() ==> 0 <= #[trigger] pending@[t] < items@.len(),
            progress ==> rounds(items@, p0, n0) == (
                positions(order).subrange(free.len() as int, positions(order).len() as int) + rounds(
                    items@,
                    positions(pending),
                    texts(names),
                ).0,
                rounds(items@, positions(pending), texts(names)).1,
            ),
            !progress ==> rounds(items@, p0, n0) == (
                positions(order).subrange(free.len() as int, positions(order).len() as int),
                positions(pending),
            ),
        decreases pending@.len() + if progress { 1int } else { 0int },
    {
        let ghost pb = positions(pending);
        let ghost nb = texts(names);
        let ghost ob = positions(order);
        let (started, waiting) = scan_pass(items, &pending, &mut names);
        proof {
            lemma_scan_len(items@, pb, nb);
        }
        if started.len() == 0 {
            progress = false;
        } else {
            let ghost sv = positions(started);
            let mut st = started;
            order.append(&mut st);
            assert(positions(order) =~= ob + sv);
            pending = waiting;
            proof {
                assert(positions(order).subrange(0, free.len() as int) =~= ob.subrange(0, free.len() as int));
                let rest = rounds(items@, positions(pending), texts(names));
                assert(ob.subrange(free.len() as int, ob.len() as int) + (sv + rest.0)
                    =~= positions(order).subrange(free.len() as int, positions(order).len() as int) + rest.0);
            }
        }
    }
    proof {
        assert(positions(order) =~= free + positions(order).subrange(free.len() as int, positions(order).len() as int));
    }
    StartOrder { order, unresolved: pending }
}

/// The names by which the items `s` are known once started after waiting.
pub open spec fn waited(items: Seq<DepItem>, s: Seq<int>) -> Seq<Seq<char>> {
    s.map_values(|i: int| items[i].waited_name@)
}

/// The names known once the first `k` items of `order` have started: the
/// first `free` of them by their names, the others by their waited names.
pub open spec fn started_names(items: Seq<DepItem>, order: Seq<int>, free: int, k: int) -> Seq<Seq<char>> {
    Seq::new(
        k as nat,
        |j: int|
            if j < free {
                items[order[j]].name@
            } else {
                items[order[j]].waited_name@
            },
    )
}

proof fn lemma_first_pass(items: Seq<DepItem>, k: int)
    requires
        0 <= k <= items.len(),
    ensures
        first_pass(items, k).1 == first_pass(items, k).0.map_values(|i: int| items[i].name@),
        forall|t: int|
            0 <= t < first_pass(items, k).0.len() ==> 0 <= #[trigger] first_pass(items, k).0[t] < k
                && items[first_pass(items, k).0[t]].after is None,
    decreases k,
{
    if k > 0 {
        lemma_first_pass(items, k - 1);
        let (f, n, p) = first_pass(items, k - 1);
        if items[k - 1].after is None {
            assert(f.push(k - 1).map_values(|i: int| items[i].name@) =~= n.push(items[k - 1].name@));
        }
    }
}

proof fn lemma_scan(items: Seq<DepItem>, pending: Seq<int>, names: Seq<Seq<char>>)
    ensures
        scan(items, pending, names).2 == names + waited(items, scan(items, pending, names).0),
        forall|t: int|
            0 <= t < scan(items, pending, names).0.len() ==> all_in(
                afters_of(items, #[trigger] scan(items, pending, names).0[t]),
                names + waited(items, scan(items, pending, names).0.subrange(0, t)),
            ),
        scan(items, pending, names).0.len() == 0 ==> scan(items, pending, names).1 == pending,
        scan(items, pending, names).0.len() == 0 ==> forall|t: int|
            0 <= t < pending.len() ==> !all_in(afters_of(items, #[trigger] pending[t]), names),
    decreases pending.len(),
{
    if pending.len() == 0 {
        assert(names + waited(items, Seq::<int>::empty()) =~= names);
    } else {
        let i = pending[0];
        let rest = pending.drop_first();
        if all_in(afters_of(items, i), names) {
            let n1 = names.push(items[i].waited_name@);
            lemma_scan(items, rest, n1);
            let (s1, r1, m1) = scan(items, rest, n1);
            let s = seq![i] + s1;
            assert(n1 + waited(items, s1) =~= names + waited(items, s));
            assert forall|t: int| 0 <= t < s.len() implies all_in(
                afters_of(items, #[trigger] s[t]),
                names + waited(items, s.subrange(0, t)),
            ) by {
                if t == 0 {
                    assert(names + waited(items, s.subrange(0, 0)) =~= names);
                } else {
                    assert(s[t] == s1[t - 1]);
                    assert(n1 + waited(items, s1.subrange(0, t - 1)) =~= names + waited(items, s.subrange(0, t)));
                }
            }
        } else {
            lemma_scan(items, rest, names);
            let (s1, r1, m1) = scan(items, rest, names);
            if s1.len() == 0 {
                assert(seq![i] + rest =~= pending);
                assert forall|t: int| 0 <= t < pending.len() implies !all_in(afters_of(items, #[trigger] pending[t]), names) by {
                    if t > 0 {
                        assert(pending[t] == rest[t - 1]);
                    }
                }
            }
        }
    }
}

proof fn lemma_rounds(items: Seq<DepItem>, pending: Seq<int>, names: Seq<Seq<char>>)
    ensures
        forall|t: int|
            0 <= t < rounds(items, pending, names).0.len() ==> all_in(
                afters_of(items, #[trigger] rounds(items, pending, names).0[t]),
                names + waited(items, rounds(items, pending, names).0.subrange(0, t)),
            ),
        forall|t: int|
            0 <= t < rounds(items, pending, names).1.len() ==> !all_in(
                afters_of(items, #[trigger] rounds(items, pending, names).1[t]),
                names + waited(items, rounds(items, pending, names).0),
            ),
    decreases pending.len(),
{
    lemma_scan(items, pending, names);
    let (s, r, n) = scan(items, pending, names);
    if s.len() == 0 {
        assert(names + waited(items, Seq::<int>::empty()) =~= names);
    } else {
        lemma_scan_len(items, pending, names);
        lemma_rounds(items, r, n);
        let (o1, u1) = rounds(items, r, n);
        let o = s + o1;
        assert forall|t: int| 0 <= t < o.len() implies all_in(
            afters_of(items, #[trigger] o[t]),
            names + waited(items, o.subrange(0, t)),
        ) by {
            if t < s.len() {
                assert(o[t] == s[t]);
                assert(o.subrange(0, t) =~= s.subrange(0, t));
            } else {
                assert(o[t] == o1[t - s.len()]);
                assert(n + waited(items, o1.subrange(0, t - s.len())) =~= names + waited(items, o.subrange(0, t)));
            }
        }
        assert(n + waited(items, o1) =~= names + waited(items, o));
    }
}

/// Dependency-based start: each item starts only once every name it waits
/// for is known from the items started before it, and each item left
/// unresolved waits for a name that no started item has.
pub proof fn lemma_start_order_respects_after(items: Seq<DepItem>)
    ensures
        ({
            let (order, unresolved) = start_order_spec(items);
            let free = first_pass(items, items.len() as int).0.len() as int;
            &&& forall|k: int|
                0 <= k < order.len() ==> all_in(
                    afters_of(items, #[trigger] order[k]),
                    started_names(items, order, free, k),
                )
            &&& forall|t: int|
                0 <= t < unresolved.len() ==> !all_in(
                    afters_of(items, #[trigger] unresolved[t]),
                    started_names(items, order, free, order.len() as int),
                )
        }),
{
    let (f, n, p) = first_pass(items, items.len() as int);
    lemma_first_pass(items, items.len() as int);
    lemma_rounds(items, p, n);
    let (o, u) = rounds(items, p, n);
    let order = f + o;
    let free = f.len() as int;
    assert forall|k: int| 0 <= k < order.len() implies all_in(
        afters_of(items, #[trigger] order[k]),
        started_names(items, order, free, k),
    ) by {
        if k < free {
            assert(order[k] == f[k]);
            assert(items[f[k]].after is None);
            assert(afters_of(items, order[k]) =~= Seq::<Seq<char>>::empty());
        } else {
            assert(order[k] == o[k - free]);
            assert(started_names(items, order, free, k) =~= n + waited(items, o.subrange(0, k - free)));
        }
    }
    assert(started_names(items, order, free, order.len() as int) =~= n + waited(items, o));
}

/// No position occurs twice.
pub open spec fn distinct(s: Seq<int>) -> bool {
    forall|a: int, b: int| 0 <= a < b < s.len() ==> s[a] != s[b]
}

proof fn lemma_first_pass_parts(items: Seq<DepItem>, k: int)
    requires
        0 <= k <= items.len(),
    ensures
        distinct(first_pass(items, k).0),
        distinct(first_pass(items, k).2),
        forall|a: int| 0 <= a < first_pass(items, k).0.len() ==> 0 <= #[trigger] first_pass(items, k).0[a] < k,
        forall|a: int| 0 <= a < first_pass(items, k).2.len() ==> 0 <= #[trigger] first_pass(items, k).2[a] < k,
        forall|a: int, b: int|
            0 <= a < first_pass(items, k).0.len() && 0 <= b < first_pass(items, k).2.len() ==> #[trigger] first_pass(items, k).0[a]
                != #[trigger] first_pass(items, k).2[b],
    decreases k,
{
    if k > 0 {
        lemma_first_pass_parts(items, k - 1);
    }
}

proof fn lemma_scan_parts(items: Seq<DepItem>, pending: Seq<int>, names: Seq<Seq<char>>)
    requires
        distinct(pending),
    ensures
        distinct(scan(items, pending, names).0),
        distinct(scan(items, pending, names).1),
        forall|a: int| 0 <= a < scan(items, pending, names).0.len() ==> pending.contains(#[trigger] scan(items, pending, names).0[a]),
        forall|a: int| 0 <= a < scan(items, pending, names).1.len() ==> pending.contains(#[trigger] scan(items, pending, names).1[a]),
        forall|a: int, b: int|
            0 <= a < scan(items, pending, names).0.len() && 0 <= b < scan(items, pending, names).1.len() ==> #[trigger] scan(
                items,
                pending,
                names,
            ).0[a] != #[trigger] scan(items, pending, names).1[b],
    decreases pending.len(),
{
    if pending.len() > 0 {
        let i = pending[0];
        let rest = pending.drop_first();
        assert(distinct(rest)) by {
            assert forall|a: int, b: int| 0 <= a < b < rest.len() implies rest[a] != rest[b] by {
                assert(rest[a] == pending[a + 1]);
                assert(rest[b] == pending[b + 1]);
            }
        }
        assert(!rest.contains(i)) by {
            if rest.contains(i) {
                let q = choose|q: int| 0 <= q < rest.len() && rest[q] == i;
                assert(pending[q + 1] == pending[0]);
            }
        }
        assert forall|x: int| rest.contains(x) implies pending.contains(x) by {
            let q = choose|q: int| 0 <= q < rest.len() && rest[q] == x;
            assert(pending[q + 1] == x);
        }
        assert(pending.contains(i)) by {
            assert(pending[0] == i);
        }
        if all_in(afters_of(items, i), names) {
            let n1 = names.push(items[i].waited_name@);
            lemma_scan_parts(items, rest, n1);
            let (s1, r1, m1) = scan(items, rest, n1);
            let s0 = seq![i] + s1;
            assert forall|a: int| 0 <= a < s0.len() implies pending.contains(#[trigger] s0[a]) by {
                if a > 0 {
                    assert(s0[a] == s1[a - 1]);
                    assert(rest.contains(s1[a - 1]));
                }
            }
            assert forall|a: int, b: int| 0 <= a < b < s0.len() implies s0[a] != s0[b] by {
                assert(s0[b] == s1[b - 1]);
                assert(rest.contains(s1[b - 1]));
                if a > 0 {
                    assert(s0[a] == s1[a - 1]);
                }
            }
            assert forall|a: int, b: int| 0 <= a < s0.len() && 0 <= b < r1.len() implies #[trigger] s0[a] != #[trigger] r1[b] by {
                assert(rest.contains(r1[b]));
                if a > 0 {
                    assert(s0[a] == s1[a - 1]);
                }
            }
        } else {
            lemma_scan_parts(items, rest, names);
            let (s1, r1, m1) = scan(items, rest, names);
            let r0 = seq![i] + r1;
            assert forall|a: int| 0 <= a < r0.len() implies pending.contains(#[trigger] r0[a]) by {
                if a > 0 {
                    assert(r0[a] == r1[a - 1]);
                    assert(rest.contains(r1[a - 1]));
                }
            }
            assert forall|a: int, b: int| 0 <= a < b < r0.len() implies r0[a] != r0[b] by {
                assert(r0[b] == r1[b - 1]);
                assert(rest.contains(r1[b - 1]));
                if a > 0 {
                    assert(r0[a] == r1[a - 1]);
                }
            }
            assert forall|a: int, b: int| 0 <= a < s1.len() && 0 <= b < r0.len() implies #[trigger] s1[a] != #[trigger] r0[b] by {
                assert(rest.contains(s1[a]));
                if b > 0 {
                    assert(r0[b] == r1[b - 1]);
                }
            }
        }
    }
}

proof fn lemma_rounds_parts(items: Seq<DepItem>, pending: Seq<int>, names: Seq<Seq<char>>)
    requires
        distinct(pending),
    ensures
        distinct(rounds(items, pending, names).0),
        forall|a: int| 0 <= a < rounds(items, pending, names).0.len() ==> pending.contains(#[trigger] rounds(items, pending, names).0[a]),
        forall|a: int| 0 <= a < rounds(items, pending, names).1.len() ==> pending.contains(#[trigger] rounds(items, pending, names).1[a]),
    decreases pending.len(),
{
    lemma_scan_parts(items, pending, names);
    let (s, r, n) = scan(items, pending, names);
    if s.len() > 0 {
        lemma_scan_len(items, pending, names);
        lemma_rounds_parts(items, r, n);
        let (o1, u1) = rounds(items, r, n);
        let o = s + o1;
        assert forall|a: int| 0 <= a < o.len() implies pending.contains(#[trigger] o[a]) by {
            if a >= s.len() {
                assert(o[a] == o1[a - s.len()]);
                assert(r.contains(o1[a - s.len()]));
                let q = choose|q: int| 0 <= q < r.len() && r[q] == o1[a - s.len()];
            }
        }
        assert forall|x: int| 0 <= x < u1.len() implies pending.contains(#[trigger] u1[x]) by {
            assert(r.contains(u1[x]));
            let q = choose|q: int| 0 <= q < r.len() && r[q] == u1[x];
        }
        assert forall|a: int, b: int| 0 <= a < b < o.len() implies o[a] != o[b] by {
            if b >= s.len() {
                assert(o[b] == o1[b - s.len()]);
                assert(r.contains(o1[b - s.len()]));
                let q = choose|q: int| 0 <= q < r.len() && r[q] == o1[b - s.len()];
                if a < s.len() {
                    assert(s[a] != r[q]);
                } else {
                    assert(o[a] == o1[a - s.len()]);
                }
            }
        }
    }
}

/// The start order names each item at most once, and every position it
/// gives is that of an item.
pub proof fn lemma_start_order_bounds(items: Seq<DepItem>)
    ensures
        distinct(start_order_spec(items).0),
        forall|a: int| 0 <= a < start_order_spec(items).0.len() ==> 0 <= #[trigger] start_order_spec(items).0[a] < items.len(),
        forall|a: int| 0 <= a < start_order_spec(items).1.len() ==> 0 <= #[trigger] start_order_spec(items).1[a] < items.len(),
{
    let (f, n, p) = first_pass(items, items.len() as int);
    lemma_first_pass_parts(items, items.len() as int);
    lemma_rounds_parts(items, p, n);
    let (o, u) = rounds(items, p, n);
    let order = f + o;
    assert forall|a: int| 0 <= a < order.len() implies 0 <= #[trigger] order[a] < items.len() by {
        if a >= f.len() {
            assert(order[a] == o[a - f.len()]);
            assert(p.contains(o[a - f.len()]));
            let q = choose|q: int| 0 <= q < p.len() && p[q] == o[a - f.len()];
        }
    }
    assert forall|a: int| 0 <= a < u.len() implies 0 <= #[trigger] u[a] < items.len() by {
        assert(p.contains(u[a]));
        let q = choose|q: int| 0 <= q < p.len() && p[q] == u[a];
    }
    assert forall|a: int, b: int| 0 <= a < b < order.len() implies order[a] != order[b] by {
        if b >= f.len() {
            assert(order[b] == o[b - f.len()]);
            assert(p.contains(o[b - f.len()]));
            let q = choose|q: int| 0 <= q < p.len() && p[q] == o[b - f.len()];
            if a < f.len() {
                assert(f[a] != p[q]);
            } else {
                assert(order[a] == o[a - f.len()]);
            }
        }
    }
}

} // verus!
