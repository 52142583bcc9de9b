//! Running maximum and minimum of a stream of values.

use vstd::prelude::*;
use vstd::std_specs::cmp::OrdSpec;
use core::cmp::Ordering;

verus! {

/// Whether comparisons of `T` follow its specified total order.
pub open spec fn total_order<T: Ord>() -> bool {
    T::obeys_cmp_spec()
}

/// The larger of two optional values; on a tie the second one.
pub open spec fn spec_max_opt<T: Ord>(a: Option<T>, b: Option<T>) -> Option<T> {
    match (a, b) {
        (None, None) => None,
        (Some(v), None) => Some(v),
        (None, Some(v)) => Some(v),
        (Some(v1), Some(v2)) => Some(
            if v2.cmp_spec(&v1) == Ordering::Less {
                v1
            } else {
                v2
            },
        ),
    }
}

/// The smaller of two optional values; on a tie the first one.
pub open spec fn spec_min_opt<T: Ord>(a: Option<T>, b: Option<T>) -> Option<T> {
    match (a, b) {
        (None, None) => None,
        (Some(v), None) => Some(v),
        (None, Some(v)) => Some(v),
        (Some(v1), Some(v2)) => Some(
            if v2.cmp_spec(&v1) == Ordering::Less {
                v2
            } else {
                v1
            },
        ),
    }
}

/// The maximum of all values it was given, if any.
#[derive(Copy, Clone, Debug)]
pub struct Max<T> {
    value: Option<T>,
}

/// The minimum of all values it was given, if any.
#[derive(Copy, Clone, Debug)]
pub struct Min<T> {
    value: Option<T>,
}

impl<T> View for Max<T> {
    type V = Option<T>;

    closed spec fn view(&self) -> Option<T> {
        self.value
    }
}

impl<T> View for Min<T> {
    type V = Option<T>;

    closed spec fn view(&self) -> Option<T> {
        self.value
    }
}

impl<T: Copy + Ord> Max<T> {
    /// An empty maximum.
    pub fn new() -> (r: Self)
        ensures
            r@ is None,
    {
        Max { value: None }
    }

    pub fn with_initial(initial: T) -> (r: Self)
        ensures
            r@ == Some(initial),
    {
        Max { value: Some(initial) }
    }

    pub fn get_max(&self) -> (r: Option<T>)
        ensures
            r == self@,
    {
        self.value
    }

    /// The maximum, or `min_value` (the least value of `T`) when there is none.
    pub fn get_max_extreme(&self, min_value: T) -> (r: T)
        ensures
            r == match self@ {
                Some(v) => v,
                None => min_value,
            },
    {
        match self.value {
            Some(v) => v,
            None => min_value,
        }
    }

    /// Takes `value` into account.
    pub fn update(&mut self, value: T)
        requires
            total_order::<T>(),
        ensures
            final(self)@ == spec_max_opt(old(self)@, Some(value)),
    {
        self.merge(Max { value: Some(value) });
    }

    /// Takes all values of `other` into account.
    pub fn merge(&mut self, other: Self)
        requires
            total_order::<T>(),
        ensures
            final(self)@ == spec_max_opt(old(self)@, other@),
    {
        match (self.value, other.value) {
            (None, None) => self.value = None,
            (Some(v), None) => self.value = Some(v),
            (None, Some(v)) => self.value = Some(v),
            (Some(v1), Some(v2)) => self.value = Some(v1.max(v2)),
        }
    }

    /// The maximum of a slice of values; empty for an empty slice.
    pub fn from_slice(values: &[T]) -> (r: Self)
        requires
            total_order::<T>(),
        ensures
            r@ == fold_max(values@),
    {
        let mut res = Max::new();
        let mut i: usize = 0;
        while i < values.len()
            invariant
                i <= values@.len(),
                total_order::<T>(),
                res@ == fold_max(values@.take(i as int)),
            decreases values@.len() - i,
        {
            assert(values@.take(i + 1).drop_last() =~= values@.take(i as int));
            res.update(values[i]);
            i = i + 1;
        }
        assert(values@.take(values@.len() as int) =~= values@);
        res
    }
}

/// The maximum of a sequence of values, folded from the left.
pub open spec fn fold_max<T: Ord>(s: Seq<T>) -> Option<T>
    decreases s.len(),
{
    if s.len() == 0 {
        None
    } else {
        spec_max_opt(fold_max(s.drop_last()), Some(s.last()))
    }
}

/// The minimum of a sequence of values, folded from the left.
pub open spec fn fold_min<T: Ord>(s: Seq<T>) -> Option<T>
    decreases s.len(),
{
    if s.len() == 0 {
        None
    } else {
        spec_min_opt(fold_min(s.drop_last()), Some(s.last()))
    }
}

impl<T: Copy + Ord> Min<T> {
    /// An empty minimum.
    pub fn new() -> (r: Self)
        ensures
            r@ is None,
    {
        Min { value: None }
    }

    pub fn with_initial(initial: T) -> (r: Self)
        ensures
            r@ == Some(initial),
    {
        Min { value: Some(initial) }
    }

    pub fn get_min(&self) -> (r: Option<T>)
        ensures
            r == self@,
    {
        self.value
    }

    /// The minimum, or `max_value` (the greatest value of `T`) when there is none.
    pub fn get_min_extreme(&self, max_value: T) -> (r: T)
        ensures
            r == match self@ {
                Some(v) => v,
                None => max_value,
            },
    {
        match self.value {
            Some(v) => v,
            None => max_value,
        }
    }

    /// Takes `value` into account.
    pub fn update(&mut self, value: T)
        requires
            total_order::<T>(),
        ensures
            final(self)@ == spec_min_opt(old(self)@, Some(value)),
    {
        self.merge(Min { value: Some(value) });
    }

    /// Takes all values of `other` into account.
    pub fn merge(&mut self, other: Self)
        requires
            total_order::<T>(),
        ensures
            final(self)@ == spec_min_opt(old(self)@, other@),
    {
        match (self.value, other.value) {
            (None, None) => self.value = None,
            (Some(v), None) => self.value = Some(v),
            (None, Some(v)) => self.value = Some(v),
            (Some(v1), Some(v2)) => self.value = Some(v1.min(v2)),
        }
    }

    /// The minimum of a slice of values; empty for an empty slice.
    pub fn from_slice(values: &[T]) -> (r: Self)
        requires
            total_order::<T>(),
        ensures
            r@ == fold_min(values@),
    {
        let mut res = Min::new();
        let mut i: usize = 0;
        while i < values.len()
            invariant
                i <= values@.len(),
                total_order::<T>(),
                res@ == fold_min(values@.take(i as int)),
            decreases values@.len() - i,
        {
            assert(values@.take(i + 1).drop_last() =~= values@.take(i as int));
            res.update(values[i]);
            i = i + 1;
        }
        assert(values@.take(values@.len() as int) =~= values@);
        res
    }
}

/// The maximum of `usize` values is the least upper bound of everything it has seen.
pub proof fn lemma_fold_max_is_maximum(s: Seq<usize>)
    ensures
        s.len() == 0 <==> fold_max(s) is None,
        fold_max(s) matches Some(m) ==> s.contains(m) && forall|i: int|
            0 <= i < s.len() ==> #[trigger] s[i] <= m,
    decreases s.len(),
{
    if s.len() > 0 {
        let p = s.drop_last();
        lemma_fold_max_is_maximum(p);
        let last = s.last();
        let m = fold_max(s).unwrap();
        match fold_max(p) {
            None => {
                assert(m == last);
                assert(s[s.len() - 1] == last);
            },
            Some(m0) => {
                assert(m == if last < m0 { m0 } else { last });
                assert(s[s.len() - 1] == last);
                let k = choose|k: int| 0 <= k < p.len() && p[k] == m0;
                assert(s[k] == m0);
                assert forall|i: int| 0 <= i < s.len() implies #[trigger] s[i] <= m by {
                    if i < p.len() {
                        assert(s[i] == p[i]);
                    }
                }
            },
        }
    }
}

/// The minimum of `usize` values is the greatest lower bound of everything it has seen.
pub proof fn lemma_fold_min_is_minimum(s: Seq<usize>)
    ensures
        s.len() == 0 <==> fold_min(s) is None,
        fold_min(s) matches Some(m) ==> s.contains(m) && forall|i: int|
            0 <= i < s.len() ==> m <= #[trigger] s[i],
    decreases s.len(),
{
    if s.len() > 0 {
        let p = s.drop_last();
        lemma_fold_min_is_minimum(p);
        let last = s.last();
        let m = fold_min(s).unwrap();
        match fold_min(p) {
            None => {
                assert(m == last);
                assert(s[s.len() - 1] == last);
            },
            Some(m0) => {
                assert(m == if last < m0 { last } else { m0 });
                assert(s[s.len() - 1] == last);
                let k = choose|k: int| 0 <= k < p.len() && p[k] == m0;
                assert(s[k] == m0);
                assert forall|i: int| 0 <= i < s.len() implies m <= #[trigger] s[i] by {
                    if i < p.len() {
                        assert(s[i] == p[i]);
                    }
                }
            },
        }
    }
}

/// The maximum and the minimum of `usize` values do not depend on the order in which the
/// values were given: two sequences holding the same values, as many times each, agree.
pub proof fn lemma_fold_order_independent(s: Seq<usize>, t: Seq<usize>)
    requires
        s.to_multiset() == t.to_multiset(),
    ensures
        fold_max(s) == fold_max(t),
        fold_min(s) == fold_min(t),
{
    s.to_multiset_ensures();
    t.to_multiset_ensures();
    lemma_fold_max_is_maximum(s);
    lemma_fold_max_is_maximum(t);
    lemma_fold_min_is_minimum(s);
    lemma_fold_min_is_minimum(t);
    assert(s.len() == t.len());
    if s.len() > 0 {
        let (a, b) = (fold_max(s).unwrap(), fold_max(t).unwrap());
        assert(s.to_multiset().count(a) > 0 && t.to_multiset().count(b) > 0);
        assert(t.contains(a) && s.contains(b));
        let i = choose|i: int| 0 <= i < t.len() && t[i] == a;
        let j = choose|j: int| 0 <= j < s.len() && s[j] == b;
        assert(t[i] <= b && s[j] <= a);
        let (c, d) = (fold_min(s).unwrap(), fold_min(t).unwrap());
        assert(s.to_multiset().count(c) > 0 && t.to_multiset().count(d) > 0);
        assert(t.contains(c) && s.contains(d));
        let k = choose|k: int| 0 <= k < t.len() && t[k] == c;
        let l = choose|l: int| 0 <= l < s.len() && s[l] == d;
        assert(d <= t[k] && c <= s[l]);
    }
}

/// Whether the specified comparison of `T` is a total order: reflexive, reversed when the
/// arguments are swapped, and transitive.
pub open spec fn lawful_order<T: Ord>() -> bool {
    &&& forall|a: T| #[trigger] a.cmp_spec(&a) == Ordering::Equal
    &&& forall|a: T, b: T|
        (#[trigger] a.cmp_spec(&b) == Ordering::Less) <==> (#[trigger] b.cmp_spec(&a) == Ordering::Greater)
    &&& forall|a: T, b: T, c: T|
        #![trigger a.cmp_spec(&b), b.cmp_spec(&c)]
        a.cmp_spec(&b) != Ordering::Greater && b.cmp_spec(&c) != Ordering::Greater ==> a.cmp_spec(&c)
            != Ordering::Greater
}

/// For any totally ordered item type, the maximum of the values given is one of them, and no
/// value given is greater; there is none exactly when no value was given.
pub proof fn lemma_fold_max_is_greatest<T: Ord>(s: Seq<T>)
    requires
        lawful_order::<T>(),
    ensures
        s.len() == 0 <==> fold_max(s) is None,
        fold_max(s) matches Some(m) ==> s.contains(m) && forall|i: int|
            0 <= i < s.len() ==> #[trigger] s[i].cmp_spec(&m) != Ordering::Greater,
    decreases s.len(),
{
    if s.len() > 0 {
        let p = s.drop_last();
        lemma_fold_max_is_greatest(p);
        let last = s.last();
        let m = fold_max(s).unwrap();
        assert(s[s.len() - 1] == last);
        match fold_max(p) {
            None => {
                assert(last.cmp_spec(&last) == Ordering::Equal);
            },
            Some(m0) => {
                let k = choose|k: int| 0 <= k < p.len() && p[k] == m0;
                assert(s[k] == m0);
                assert(last.cmp_spec(&last) == Ordering::Equal);
                assert(m0.cmp_spec(&m0) == Ordering::Equal);
                assert forall|i: int| 0 <= i < s.len() implies #[trigger] s[i].cmp_spec(&m) != Ordering::Greater by {
                    if i < p.len() {
                        assert(s[i] == p[i]);
                        if last.cmp_spec(&m0) != Ordering::Less {
                            assert(m0.cmp_spec(&last) != Ordering::Greater);
                            assert(p[i].cmp_spec(&m0) != Ordering::Greater);
                        }
                    }
                }
            },
        }
    }
}

/// For any totally ordered item type, the minimum of the values given is one of them, and no
/// value given is smaller; there is none exactly when no value was given.
pub proof fn lemma_fold_min_is_least<T: Ord>(s: Seq<T>)
    requires
        lawful_order::<T>(),
    ensures
        s.len() == 0 <==> fold_min(s) is None,
        fold_min(s) matches Some(m) ==> s.contains(m) && forall|i: int|
            0 <= i < s.len() ==> #[trigger] m.cmp_spec(&s[i]) != Ordering::Greater,
    decreases s.len(),
{
    if s.len() > 0 {
        let p = s.drop_last();
        lemma_fold_min_is_least(p);
        let last = s.last();
        let m = fold_min(s).unwrap();
        assert(s[s.len() - 1] == last);
        match fold_min(p) {
            None => {
                assert(last.cmp_spec(&last) == Ordering::Equal);
            },
            Some(m0) => {
                let k = choose|k: int| 0 <= k < p.len() && p[k] == m0;
                assert(s[k] == m0);
                assert(last.cmp_spec(&last) == Ordering::Equal);
                assert(m0.cmp_spec(&m0) == Ordering::Equal);
                assert forall|i: int| 0 <= i < s.len() implies #[trigger] m.cmp_spec(&s[i]) != Ordering::Greater by {
                    if i < p.len() {
                        assert(s[i] == p[i]);
                        if last.cmp_spec(&m0) == Ordering::Less {
                            assert(m0.cmp_spec(&p[i]) != Ordering::Greater);
                            assert(last.cmp_spec(&m0) != Ordering::Greater);
                        }
                    }
                }
            },
        }
    }
}

/// Whether two values of `T` that compare equal are the same value.
pub open spec fn equal_means_same<T: Ord>() -> bool {
    forall|a: T, b: T| #[trigger] a.cmp_spec(&b) == Ordering::Equal ==> a == b
}

/// For any totally ordered item type in which values that compare equal are the same, the
/// maximum and the minimum do not depend on the order in which the values were given: two
/// sequences holding the same values, as many times each, agree.
pub proof fn lemma_fold_order_independent_ordered<T: Ord>(s: Seq<T>, t: Seq<T>)
    requires
        lawful_order::<T>(),
        equal_means_same::<T>(),
        s.to_multiset() == t.to_multiset(),
    ensures
        fold_max(s) == fold_max(t),
        fold_min(s) == fold_min(t),
{
    s.to_multiset_ensures();
    t.to_multiset_ensures();
    lemma_fold_max_is_greatest(s);
    lemma_fold_max_is_greatest(t);
    lemma_fold_min_is_least(s);
    lemma_fold_min_is_least(t);
    assert(s.len() == t.len());
    if s.len() > 0 {
        let (a, b) = (fold_max(s).unwrap(), fold_max(t).unwrap());
        assert(s.to_multiset().count(a) > 0 && t.to_multiset().count(b) > 0);
        assert(t.contains(a) && s.contains(b));
        let i = choose|i: int| 0 <= i < t.len() && t[i] == a;
        let j = choose|j: int| 0 <= j < s.len() && s[j] == b;
        assert(t[i].cmp_spec(&b) != Ordering::Greater && s[j].cmp_spec(&a) != Ordering::Greater);
        assert(a.cmp_spec(&b) == Ordering::Equal);
        let (c, d) = (fold_min(s).unwrap(), fold_min(t).unwrap());
        assert(s.to_multiset().count(c) > 0 && t.to_multiset().count(d) > 0);
        assert(t.contains(c) && s.contains(d));
        let k = choose|k: int| 0 <= k < t.len() && t[k] == c;
        let l = choose|l: int| 0 <= l < s.len() && s[l] == d;
        assert(d.cmp_spec(&t[k]) != Ordering::Greater && c.cmp_spec(&s[l]) != Ordering::Greater);
        assert(c.cmp_spec(&d) == Ordering::Equal);
    }
}

/// A maximum made with an initial value is an empty maximum updated with that value, and
/// merging an empty maximum changes nothing; the same holds of minima.
pub proof fn lemma_empty_is_neutral<T: Ord>(v: T, a: Option<T>)
    ensures
        spec_max_opt(None, Some(v)) == Some(v),
        spec_max_opt(a, None) == a,
        spec_max_opt(None, a) == a,
        spec_min_opt(None, Some(v)) == Some(v),
        spec_min_opt(a, None) == a,
        spec_min_opt(None, a) == a,
{
}

} // verus!
