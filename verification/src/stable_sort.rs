//! Stable sorting by a numeric key.

use vstd::prelude::*;
use vstd::relations::{sorted_by, total_ordering};

verus! {

/// Orders (key, position) pairs by key, and pairs with equal keys by position.
pub open spec fn key_then_position() -> spec_fn((i128, int), (i128, int)) -> bool {
    |a: (i128, int), b: (i128, int)| a.0 < b.0 || (a.0 == b.0 && a.1 <= b.1)
}

/// Each key paired with its position.
pub open spec fn keyed(keys: Seq<i128>) -> Seq<(i128, int)> {
    Seq::new(keys.len(), |i: int| (keys[i], i))
}

/// The positions of the keys in stable ascending order: by key, and equal keys in the order
/// in which they come.
pub open spec fn stable_order(keys: Seq<i128>) -> Seq<int> {
    keyed(keys).sort_by(key_then_position()).map_values(|p: (i128, int)| p.1)
}

/// The items of `s` at the positions `order`.
pub open spec fn permute<T>(s: Seq<T>, order: Seq<int>) -> Seq<T> {
    order.map_values(|i: int| s[i])
}

/// `s` sorted stably by `key`.
pub open spec fn stable_sorted<T>(s: Seq<T>, key: spec_fn(T) -> i128) -> Seq<T> {
    permute(s, stable_order(s.map_values(key)))
}

proof fn lemma_key_then_position_total()
    ensures
        total_ordering(key_then_position()),
{
}

/// Sorting by a key depends on nothing but the keys: items with the same keys, mapped by `f`,
/// come out in the same order.
pub proof fn lemma_stable_sorted_map<T, U>(s: Seq<T>, key: spec_fn(T) -> i128, f: spec_fn(T) -> U, key_u: spec_fn(U) -> i128)
    requires
        forall|x: T| #[trigger] key_u(f(x)) == key(x),
    ensures
        stable_sorted(s, key).map_values(f) == stable_sorted(s.map_values(f), key_u),
        stable_order(s.map_values(key)).len() == s.len(),
        forall|j: int| 0 <= j < s.len() ==> 0 <= #[trigger] stable_order(s.map_values(key))[j] < s.len(),
{
    lemma_key_then_position_total();
    let k1 = s.map_values(key);
    let k2 = s.map_values(f).map_values(key_u);
    assert(k1 =~= k2);
    let ks = keyed(k1);
    ks.lemma_sort_by_ensures(key_then_position());
    let sorted = ks.sort_by(key_then_position());
    assert(sorted.len() == ks.len()) by {
        sorted.to_multiset_ensures();
        ks.to_multiset_ensures();
    }
    assert forall|j: int| 0 <= j < s.len() implies 0 <= #[trigger] stable_order(k1)[j] < s.len() by {
        assert(sorted.contains(sorted[j]));
        assert(ks.contains(sorted[j]));
    }
    assert(stable_sorted(s, key).map_values(f) =~= stable_sorted(s.map_values(f), key_u));
}

/// Sequences of at most one item are sorted already.
pub proof fn lemma_stable_sorted_short<T>(s: Seq<T>, key: spec_fn(T) -> i128)
    requires
        s.len() <= 1,
    ensures
        stable_sorted(s, key) == s,
{
    broadcast use vstd::seq_lib::group_to_multiset_ensures;

    lemma_key_then_position_total();
    let ks = keyed(s.map_values(key));
    ks.lemma_sort_by_ensures(key_then_position());
    let sorted = ks.sort_by(key_then_position());
    assert(sorted.to_multiset().len() == ks.to_multiset().len());
    if s.len() == 1 {
        assert(sorted.contains(sorted[0]));
        assert(sorted.to_multiset().count(sorted[0]) > 0);
        assert(ks.to_multiset().count(sorted[0]) > 0);
        assert(ks.contains(sorted[0]));
    }
    assert(stable_sorted(s, key) =~= s);
}

/// `v` sorted stably by `keys`, where `keys[i]` is the key of `v[i]`.
pub fn stable_sort_by_key<T>(v: Vec<T>, keys: Vec<i128>) -> (r: Vec<T>)
    requires
        v@.len() == keys@.len(),
    ensures
        r@ == permute(v@, stable_order(keys@)),
        r@.len() == v@.len(),
{
    broadcast use vstd::seq_lib::group_to_multiset_ensures;

    let ghost v0 = v@;
    let ghost k0 = keys@;
    let ghost n = v@.len();
    let mut v = v;
    let mut keys = keys;
    let mut res: Vec<T> = Vec::new();
    let mut rkeys: Vec<i128> = Vec::new();
    let ghost mut rp: Seq<(i128, int)> = Seq::empty();
    proof {
        assert(keyed(k0).skip(n as int) =~= Seq::<(i128, int)>::empty());
    }
    while v.len() > 0
        invariant
            v@.len() == keys@.len(),
            v@.len() <= n,
            n == v0.len(),
            n == k0.len(),
            v@ == v0.take(v@.len() as int),
            keys@ == k0.take(keys@.len() as int),
            res@.len() == rkeys@.len(),
            res@.len() == rp.len(),
            forall|j: int|
                0 <= j < rp.len() ==> v@.len() <= (#[trigger] rp[j]).1 < n && rp[j].0 == rkeys@[j]
                    && res@[j] == v0[rp[j].1] && rkeys@[j] == k0[rp[j].1],
            sorted_by(rp, key_then_position()),
            rp.to_multiset() == keyed(k0).skip(v@.len() as int).to_multiset(),
        decreases v@.len(),
    {
        let ghost idx = (v@.len() - 1) as int;
        let x = v.pop().unwrap();
        let kx = keys.pop().unwrap();
        assert(x == v0[idx] && kx == k0[idx]);
        let mut p: usize = 0;
        while p < rkeys.len() && rkeys[p] < kx
            invariant
                p <= rkeys@.len(),
                forall|j: int| 0 <= j < p ==> rkeys@[j] < kx,
            decreases rkeys@.len() - p,
        {
            p = p + 1;
        }
        let ghost old_rp = rp;
        let ghost old_res = res@;
        let ghost old_rkeys = rkeys@;
        res.insert(p, x);
        rkeys.insert(p, kx);
        proof {
            rp = old_rp.insert(p as int, (kx, idx));
            assert(keyed(k0).skip(idx) =~= keyed(k0).skip(idx + 1).insert(0, (kx, idx)));
            vstd::seq_lib::to_multiset_insert(old_rp, p as int, (kx, idx));
            vstd::seq_lib::to_multiset_insert(keyed(k0).skip(idx + 1), 0, (kx, idx));
            assert forall|j: int| 0 <= j < rp.len() implies v@.len() <= (#[trigger] rp[j]).1 < n
                && rp[j].0 == rkeys@[j] && res@[j] == v0[rp[j].1] && rkeys@[j] == k0[rp[j].1] by {
                if j < p {
                    assert(rp[j] == old_rp[j]);
                } else if j > p {
                    assert(rp[j] == old_rp[j - 1]);
                }
            }
            assert(sorted_by(rp, key_then_position())) by {
                assert forall|a: int, b: int| 0 <= a < b < rp.len() implies #[trigger] (
                key_then_position())(rp[a], rp[b]) by {
                    if b < p {
                        assert(rp[a] == old_rp[a] && rp[b] == old_rp[b]);
                    } else if b == p {
                        assert(rp[a] == old_rp[a]);
                    } else if a == p {
                        assert(rp[b] == old_rp[b - 1]);
                        if p < old_rp.len() {
                            assert(old_rkeys[p as int] >= kx);
                            assert((key_then_position())(old_rp[p as int], old_rp[b - 1]));
                        }
                    } else if a < p {
                        assert(rp[a] == old_rp[a] && rp[b] == old_rp[b - 1]);
                    } else {
                        assert(rp[a] == old_rp[a - 1] && rp[b] == old_rp[b - 1]);
                    }
                }
            }
            assert(v@ =~= v0.take(v@.len() as int));
            assert(keys@ =~= k0.take(keys@.len() as int));
        }
    }
    proof {
        lemma_key_then_position_total();
        assert(keyed(k0).skip(0) =~= keyed(k0));
        keyed(k0).lemma_sort_by_ensures(key_then_position());
        vstd::seq_lib::lemma_sorted_unique(rp, keyed(k0).sort_by(key_then_position()), key_then_position());
        assert(rp.to_multiset().len() == keyed(k0).to_multiset().len());
        assert(res@ =~= permute(v0, stable_order(k0)));
    }
    res
}

} // verus!
