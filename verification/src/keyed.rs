//! A table of values keyed by text, kept as a list in which no key occurs
//! twice, and seen as a map from key to value.
use crate::text::str_eq;
use vstd::prelude::*;

verus! {

/// One entry of a table.
pub struct Keyed<V> {
    pub key: String,
    pub value: V,
}

/// No key occurs twice.
pub open spec fn keys_unique<V>(s: Seq<Keyed<V>>) -> bool {
    forall|i: int, j: int|
        0 <= i < s.len() && 0 <= j < s.len() && i != j ==> (#[trigger] s[i]).key@ != (#[trigger] s[j]).key@
}

/// Whether `key` has an entry at `i`.
pub open spec fn has_key_at<V>(s: Seq<Keyed<V>>, key: Seq<char>, i: int) -> bool {
    0 <= i < s.len() && s[i].key@ == key
}

/// The table as a map from key to value.
pub open spec fn table<V>(s: Seq<Keyed<V>>) -> Map<Seq<char>, V> {
    Map::new(
        |k: Seq<char>| exists|i: int| has_key_at(s, k, i),
        |k: Seq<char>| s[choose|i: int| has_key_at(s, k, i)].value,
    )
}

/// The entry of a key, where the keys are unique, is the one the map gives.
pub proof fn lemma_table_at<V>(s: Seq<Keyed<V>>, i: int)
    requires
        keys_unique(s),
        0 <= i < s.len(),
    ensures
        table(s).contains_key(s[i].key@),
        table(s)[s[i].key@] == s[i].value,
{
    assert(has_key_at(s, s[i].key@, i));
    let j = choose|j: int| has_key_at(s, s[i].key@, j);
    assert(i == j);
}

/// The position of `key` in the table, if it has one.
pub fn find_key<V>(entries: &Vec<Keyed<V>>, key: &str) -> (r: Option<usize>)
    ensures
        r matches Some(i) ==> has_key_at(entries@, key@, i as int),
        r is None ==> !table(entries@).contains_key(key@),
{
    let mut i: usize = 0;
    while i < entries.len()
        invariant
            i <= entries@.len(),
            forall|j: int| 0 <= j < i ==> !has_key_at(entries@, key@, j),
        decreases entries@.len() - i,
    {
        if str_eq(entries[i].key.as_str(), key) {
            return Some(i);
        }
        i = i + 1;
    }
    None
}

/// The value of `key`, if it has one.
pub fn get_key<'a, V>(entries: &'a Vec<Keyed<V>>, key: &str) -> (r: Option<&'a V>)
    requires
        keys_unique(entries@),
    ensures
        r matches Some(v) ==> table(entries@).contains_key(key@) && table(entries@)[key@] == *v,
        r is None ==> !table(entries@).contains_key(key@),
{
    match find_key(entries, key) {
        Some(i) => {
            proof {
                lemma_table_at(entries@, i as int);
            }
            Some(&entries[i].value)
        },
        None => None,
    }
}

/// Removes the entry of `key` and gives its value back, as a map removes a key.
pub fn remove_key<V>(entries: &mut Vec<Keyed<V>>, key: &str) -> (r: Option<V>)
    requires
        keys_unique(old(entries)@),
    ensures
        keys_unique(final(entries)@),
        table(final(entries)@) == table(old(entries)@).remove(key@),
        r matches Some(v) ==> table(old(entries)@).contains_key(key@) && table(old(entries)@)[key@] == v,
        r is None ==> !table(old(entries)@).contains_key(key@),
{
    match find_key(entries, key) {
        Some(i) => {
            let ghost before = entries@;
            proof {
                lemma_table_at(before, i as int);
            }
            let e = entries.remove(i);
            proof {
                assert(entries@ == before.remove(i as int));
                assert(keys_unique(entries@)) by {
                    assert forall|a: int, b: int|
                        0 <= a < entries@.len() && 0 <= b < entries@.len() && a != b implies (#[trigger] entries@[a]).key@
                        != (#[trigger] entries@[b]).key@ by {
                        let a0 = if a < i { a } else { a + 1 };
                        let b0 = if b < i { b } else { b + 1 };
                        assert(entries@[a] == before[a0]);
                        assert(entries@[b] == before[b0]);
                    }
                }
                assert(table(entries@) =~= table(before).remove(key@)) by {
                    assert forall|k: Seq<char>| #[trigger] table(entries@).contains_key(k) <==> table(before).remove(key@).contains_key(k) by {
                        if table(entries@).contains_key(k) {
                            let a = choose|a: int| has_key_at(entries@, k, a);
                            let a0 = if a < i { a } else { a + 1 };
                            assert(entries@[a] == before[a0]);
                            assert(has_key_at(before, k, a0));
                        }
                        if table(before).remove(key@).contains_key(k) {
                            let a0 = choose|a: int| has_key_at(before, k, a);
                            assert(a0 != i);
                            let a = if a0 < i { a0 } else { a0 - 1 };
                            assert(entries@[a] == before[a0]);
                            assert(has_key_at(entries@, k, a));
                        }
                    }
                    assert forall|k: Seq<char>| #[trigger] table(entries@).contains_key(k) implies table(entries@)[k]
                        == table(before).remove(key@)[k] by {
                        let a = choose|a: int| has_key_at(entries@, k, a);
                        let a0 = if a < i { a } else { a + 1 };
                        assert(entries@[a] == before[a0]);
                        lemma_table_at(entries@, a);
                        lemma_table_at(before, a0);
                    }
                }
            }
            Some(e.value)
        },
        None => {
            proof {
                assert(table(entries@) =~= table(entries@).remove(key@));
            }
            None
        },
    }
}

/// Sets the value of `key`, as a map inserts a key.
pub fn insert_key<V>(entries: &mut Vec<Keyed<V>>, key: String, value: V)
    requires
        keys_unique(old(entries)@),
    ensures
        keys_unique(final(entries)@),
        table(final(entries)@) == table(old(entries)@).insert(key@, value),
{
    let ghost k0 = key@;
    let ghost v0 = value;
    remove_key(entries, key.as_str());
    let ghost before = entries@;
    entries.push(Keyed { key, value });
    proof {
        let n = before.len() as int;
        assert(entries@[n].key@ == k0);
        assert(!table(before).contains_key(k0));
        assert forall|a: int, b: int|
            0 <= a < entries@.len() && 0 <= b < entries@.len() && a != b implies (#[trigger] entries@[a]).key@
            != (#[trigger] entries@[b]).key@ by {
            if a < n && b < n {
                assert(entries@[a] == before[a]);
                assert(entries@[b] == before[b]);
            } else if a < n {
                assert(entries@[a] == before[a]);
                assert(has_key_at(before, before[a].key@, a));
                assert(table(before).contains_key(before[a].key@));
            } else if b < n {
                assert(entries@[b] == before[b]);
                assert(has_key_at(before, before[b].key@, b));
                assert(table(before).contains_key(before[b].key@));
            }
        }
        assert(table(entries@) =~= table(before).insert(k0, v0)) by {
            assert forall|k: Seq<char>| #[trigger] table(entries@).contains_key(k) <==> table(before).insert(k0, v0).contains_key(k) by {
                if table(entries@).contains_key(k) {
                    let a = choose|a: int| has_key_at(entries@, k, a);
                    if a < n {
                        assert(entries@[a] == before[a]);
                        assert(has_key_at(before, k, a));
                    }
                }
                if table(before).contains_key(k) {
                    let a = choose|a: int| has_key_at(before, k, a);
                    assert(entries@[a] == before[a]);
                    assert(has_key_at(entries@, k, a));
                }
                if k == k0 {
                    assert(has_key_at(entries@, k, n));
                }
            }
            assert forall|k: Seq<char>| #[trigger] table(entries@).contains_key(k) implies table(entries@)[k]
                == table(before).insert(k0, v0)[k] by {
                let a = choose|a: int| has_key_at(entries@, k, a);
                lemma_table_at(entries@, a);
                if a < n {
                    assert(entries@[a] == before[a]);
                    lemma_table_at(before, a);
                }
            }
        }
    }
}

/// The keys of the table, in the order of its entries.
pub fn table_keys<V>(entries: &Vec<Keyed<V>>) -> (r: Vec<String>)
    ensures
        r@.len() == entries@.len(),
        forall|i: int| 0 <= i < entries@.len() ==> (#[trigger] r@[i])@ == entries@[i].key@,
{
    let mut out: Vec<String> = Vec::new();
    let mut i: usize = 0;
    while i < entries.len()
        invariant
            i <= entries@.len(),
            out@.len() == i,
            forall|j: int| 0 <= j < i ==> (#[trigger] out@[j])@ == entries@[j].key@,
        decreases entries@.len() - i,
    {
        out.push(entries[i].key.clone());
        i = i + 1;
    }
    out
}

} // verus!
