//! Sequences of key-value pairs used as small maps: the first entry with a key holds its value.

use vstd::prelude::*;

verus! {

/// The position of the first entry with key `k`, if any.
pub open spec fn key_index<K, V>(s: Seq<(K, V)>, k: K) -> Option<int>
    decreases s.len(),
{
    if s.len() == 0 {
        None
    } else {
        match key_index(s.drop_last(), k) {
            Some(i) => Some(i),
            None => if s.last().0 == k {
                Some(s.len() - 1)
            } else {
                None
            },
        }
    }
}

/// The first entry with key `k` is at `j`.
pub proof fn lemma_key_index_first<K, V>(s: Seq<(K, V)>, k: K, j: int)
    requires
        0 <= j < s.len(),
        s[j].0 == k,
        forall|x: int| 0 <= x < j ==> s[x].0 != k,
    ensures
        key_index(s, k) == Some(j),
    decreases s.len(),
{
    if j < s.len() - 1 {
        lemma_key_index_first(s.drop_last(), k, j);
    } else {
        lemma_key_index_absent(s.drop_last(), k);
    }
}

/// No entry has key `k`.
pub proof fn lemma_key_index_absent<K, V>(s: Seq<(K, V)>, k: K)
    requires
        forall|x: int| 0 <= x < s.len() ==> s[x].0 != k,
    ensures
        key_index(s, k) is None,
    decreases s.len(),
{
    if s.len() > 0 {
        lemma_key_index_absent(s.drop_last(), k);
    }
}

/// The entry found has the key looked for.
pub proof fn lemma_key_index_bounds<K, V>(s: Seq<(K, V)>, k: K)
    ensures
        key_index(s, k) matches Some(i) ==> 0 <= i < s.len() && s[i].0 == k,
    decreases s.len(),
{
    if s.len() > 0 {
        lemma_key_index_bounds(s.drop_last(), k);
    }
}

/// Setting the value of the entry found for `k` changes what `k` finds and nothing else.
pub proof fn lemma_key_index_update<K, V>(s: Seq<(K, V)>, k: K, v: V, other: K)
    requires
        key_index(s, k) is Some,
    ensures
        key_index(s.update(key_index(s, k).unwrap(), (k, v)), other) == key_index(s, other),
    decreases s.len(),
{
    let i = key_index(s, k).unwrap();
    lemma_key_index_bounds(s, k);
    let t = s.update(i, (k, v));
    if i < s.len() - 1 {
        assert(t.drop_last() =~= s.drop_last().update(i, (k, v)));
        lemma_key_index_update(s.drop_last(), k, v, other);
    } else {
        assert(t.drop_last() =~= s.drop_last());
    }
}

/// Appending an entry for a key that has none makes it find the new entry, and changes
/// nothing else.
pub proof fn lemma_key_index_push<K, V>(s: Seq<(K, V)>, k: K, v: V, other: K)
    requires
        key_index(s, k) is None,
    ensures
        key_index(s.push((k, v)), other) == if other == k {
            Some(s.len() as int)
        } else {
            key_index(s, other)
        },
{
    assert(s.push((k, v)).drop_last() =~= s);
}

/// The value of the first entry with key `k`, if any.
pub open spec fn entry_of<K, V>(s: Seq<(K, V)>, k: K) -> Option<V> {
    match key_index(s, k) {
        Some(i) => Some(s[i].1),
        None => None,
    }
}

/// The entries with the value of `k` set to `v`: the first entry of `k` changed, or a new
/// entry appended.
pub open spec fn upsert<K, V>(s: Seq<(K, V)>, k: K, v: V) -> Seq<(K, V)> {
    match key_index(s, k) {
        Some(i) => s.update(i, (k, v)),
        None => s.push((k, v)),
    }
}

/// Setting the value of `k` changes what `k` finds to `v`, and nothing else.
pub proof fn lemma_entry_of_upsert<K, V>(s: Seq<(K, V)>, k: K, v: V, other: K)
    ensures
        entry_of(upsert(s, k, v), other) == if other == k {
            Some(v)
        } else {
            entry_of(s, other)
        },
{
    lemma_key_index_bounds(s, k);
    lemma_key_index_bounds(s, other);
    match key_index(s, k) {
        Some(i) => {
            lemma_key_index_update(s, k, v, other);
        },
        None => {
            lemma_key_index_push(s, k, v, other);
        },
    }
}

/// Whether no key occurs twice.
pub open spec fn keys_unique<K, V>(s: Seq<(K, V)>) -> bool {
    forall|i: int, j: int| 0 <= i < j < s.len() ==> #[trigger] s[i].0 != #[trigger] s[j].0
}

/// Where no key occurs twice, the key of each entry finds that entry.
pub proof fn lemma_key_index_unique<K, V>(s: Seq<(K, V)>, j: int)
    requires
        keys_unique(s),
        0 <= j < s.len(),
    ensures
        key_index(s, s[j].0) == Some(j),
        entry_of(s, s[j].0) == Some(s[j].1),
{
    assert forall|x: int| 0 <= x < j implies s[x].0 != s[j].0 by {}
    lemma_key_index_first(s, s[j].0, j);
}

/// Setting a value keeps the keys unique.
pub proof fn lemma_upsert_keys_unique<K, V>(s: Seq<(K, V)>, k: K, v: V)
    requires
        keys_unique(s),
    ensures
        keys_unique(upsert(s, k, v)),
{
    lemma_key_index_bounds(s, k);
    let t = upsert(s, k, v);
    match key_index(s, k) {
        Some(i) => {
            assert forall|a: int, b: int| 0 <= a < b < t.len() implies #[trigger] t[a].0 != #[trigger] t[b].0 by {
                assert(s[a].0 == t[a].0 && s[b].0 == t[b].0);
            }
        },
        None => {
            assert forall|a: int, b: int| 0 <= a < b < t.len() implies #[trigger] t[a].0 != #[trigger] t[b].0 by {
                if b == s.len() {
                    if s[a].0 == k {
                        lemma_key_index_unique(s, a);
                    }
                } else {
                    assert(s[a].0 == t[a].0 && s[b].0 == t[b].0);
                }
            }
        },
    }
}

} // verus!
