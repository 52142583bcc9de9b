//! Statistics over classification counts and distances.

use crate::load_sequence::str_equals;
use crate::sequence::Sequence;
use vstd::prelude::*;
use vstd::relations::sorted_by;

verus! {

/// Sum of a sequence of numbers.
pub open spec fn sum(s: Seq<usize>) -> int
    decreases s.len(),
{
    if s.len() == 0 {
        0
    } else {
        sum(s.drop_last()) + s.last()
    }
}

/// `r[i]` is the sum of `counts[i..]`: how often a value of at least `i` occurred.
pub fn reverse_cum_sum(counts: &[usize]) -> (r: Vec<usize>)
    requires
        sum(counts@) <= usize::MAX,
    ensures
        r@.len() == counts@.len(),
        forall|i: int| 0 <= i < counts@.len() ==> #[trigger] r@[i] == sum(counts@.skip(i)),
{
    let n = counts.len();
    let mut res: Vec<usize> = Vec::new();
    let mut k: usize = 0;
    while k < n
        invariant
            k <= n,
            n == counts@.len(),
            res@.len() == k,
        decreases n - k,
    {
        res.push(0);
        k = k + 1;
    }
    let mut accu: usize = 0;
    let mut i: usize = n;
    proof {
        assert(counts@.skip(n as int) =~= Seq::<usize>::empty());
    }
    while i > 0
        invariant
            i <= n,
            n == counts@.len(),
            res@.len() == n,
            sum(counts@) <= usize::MAX,
            accu == sum(counts@.skip(i as int)),
            forall|j: int| i <= j < n ==> #[trigger] res@[j] == sum(counts@.skip(j)),
        decreases i,
    {
        i = i - 1;
        proof {
            lemma_sum_skip_step(counts@, i as int);
            lemma_sum_skip_bounded(counts@, i as int);
        }
        accu = accu + counts[i];
        res.set(i, accu);
    }
    res
}

/// Sum of the last `s.len() - i` elements, one step at a time.
proof fn lemma_sum_skip_step(s: Seq<usize>, i: int)
    requires
        0 <= i < s.len(),
    ensures
        sum(s.skip(i)) == s[i] + sum(s.skip(i + 1)),
    decreases s.len() - i,
{
    if i + 1 == s.len() {
        assert(s.skip(i).drop_last() =~= Seq::<usize>::empty());
        assert(s.skip(i + 1) =~= Seq::<usize>::empty());
    } else {
        lemma_sum_skip_step(s.drop_last(), i);
        assert(s.skip(i).drop_last() =~= s.drop_last().skip(i));
        assert(s.skip(i + 1).drop_last() =~= s.drop_last().skip(i + 1));
    }
}

/// A suffix sums to no more than the whole sequence.
proof fn lemma_sum_skip_bounded(s: Seq<usize>, i: int)
    requires
        0 <= i <= s.len(),
    ensures
        0 <= sum(s.skip(i)) <= sum(s),
    decreases i,
{
    if i == 0 {
        assert(s.skip(0) =~= s);
        lemma_sum_nonneg(s);
    } else {
        lemma_sum_skip_bounded(s, i - 1);
        lemma_sum_skip_step(s, i - 1);
        lemma_sum_nonneg(s.skip(i));
    }
}

proof fn lemma_sum_nonneg(s: Seq<usize>)
    ensures
        sum(s) >= 0,
    decreases s.len(),
{
    if s.len() > 0 {
        lemma_sum_nonneg(s.drop_last());
    }
}

/// Sum of the prefix of length `i`.
proof fn lemma_sum_take_step(s: Seq<usize>, i: int)
    requires
        0 <= i < s.len(),
    ensures
        sum(s.take(i + 1)) == sum(s.take(i)) + s[i],
{
    assert(s.take(i + 1).drop_last() =~= s.take(i));
}

proof fn lemma_sum_take_bounded(s: Seq<usize>, i: int)
    requires
        0 <= i <= s.len(),
    ensures
        0 <= sum(s.take(i)) <= sum(s),
    decreases s.len() - i,
{
    if i == s.len() {
        assert(s.take(i) =~= s);
        lemma_sum_nonneg(s);
    } else {
        lemma_sum_take_bounded(s, i + 1);
        lemma_sum_take_step(s, i);
        lemma_sum_nonneg(s.take(i));
    }
}

/// Sums a slice of numbers.
fn sum_of(v: &[usize]) -> (r: usize)
    requires
        sum(v@) <= usize::MAX,
    ensures
        r == sum(v@),
{
    let mut acc: usize = 0;
    let mut i: usize = 0;
    while i < v.len()
        invariant
            i <= v@.len(),
            sum(v@) <= usize::MAX,
            acc == sum(v@.take(i as int)),
        decreases v@.len() - i,
    {
        proof {
            lemma_sum_take_step(v@, i as int);
            lemma_sum_take_bounded(v@, i + 1);
        }
        acc = acc + v[i];
        i = i + 1;
    }
    assert(v@.take(v@.len() as int) =~= v@);
    acc
}

/// The order `<=` on numbers.
pub open spec fn usize_leq() -> spec_fn(usize, usize) -> bool {
    |a: usize, b: usize| a <= b
}

/// `v` sorted in ascending order.
pub fn sort(v: &Vec<usize>) -> (r: Vec<usize>)
    ensures
        r@ == v@.sort_by(usize_leq()),
{
    broadcast use vstd::seq_lib::group_to_multiset_ensures;

    let mut res: Vec<usize> = Vec::new();
    let mut i: usize = 0;
    while i < v.len()
        invariant
            i <= v@.len(),
            sorted_by(res@, usize_leq()),
            res@.to_multiset() == v@.take(i as int).to_multiset(),
        decreases v@.len() - i,
    {
        let x = v[i];
        let mut p: usize = 0;
        while p < res.len() && res[p] <= x
            invariant
                p <= res@.len(),
                forall|j: int| 0 <= j < p ==> res@[j] <= x,
            decreases res@.len() - p,
        {
            p = p + 1;
        }
        let ghost old_res = res@;
        res.insert(p, x);
        proof {
            assert(res@ == old_res.insert(p as int, x));
            assert(v@.take(i + 1) =~= v@.take(i as int).push(x));
            vstd::seq_lib::to_multiset_insert(old_res, p as int, x);
            vstd::seq_lib::to_multiset_build(v@.take(i as int), x);
            assert(sorted_by(res@, usize_leq())) by {
                assert forall|a: int, b: int| 0 <= a < b < res@.len() implies #[trigger] (usize_leq())(res@[a], res@[b]) by {
                    if b < p {
                        assert(res@[a] == old_res[a] && res@[b] == old_res[b]);
                    } else if b == p {
                        assert(res@[a] == old_res[a]);
                    } else if a == p {
                        assert(res@[b] == old_res[b - 1]);
                        if p < old_res.len() {
                            assert(old_res[p as int] > x);
                            assert((usize_leq())(old_res[p as int], old_res[b - 1]));
                        }
                    } else if a < p {
                        assert(res@[a] == old_res[a] && res@[b] == old_res[b - 1]);
                    } else {
                        assert(res@[a] == old_res[a - 1] && res@[b] == old_res[b - 1]);
                    }
                }
            }
        }
        i = i + 1;
    }
    proof {
        assert(v@.take(v@.len() as int) =~= v@);
        v@.lemma_sort_by_ensures(usize_leq());
        vstd::seq_lib::lemma_sorted_unique(res@, v@.sort_by(usize_leq()), usize_leq());
    }
    res
}

/// Average of a row of distances, 0 for an empty row.
pub open spec fn spec_average(s: Seq<usize>) -> int {
    if s.len() == 0 {
        0
    } else {
        sum(s) / s.len() as int
    }
}

/// Median of a row of distances (the upper one for even lengths), 0 for an empty row.
pub open spec fn spec_median(s: Seq<usize>) -> int {
    if s.len() == 0 {
        0
    } else {
        s.sort_by(usize_leq())[(s.len() / 2) as int] as int
    }
}

/// Average and median distance of each row, and the averages of both over all rows.
///
/// Row `i` holds the distances from the `i`-th sequence of one set to each sequence of the
/// other set that differs from it.
pub fn sequence_stats(dists: &[Vec<usize>]) -> (r: (Vec<usize>, Vec<usize>, usize, usize))
    requires
        dists@.len() > 0,
        forall|i: int| 0 <= i < dists@.len() ==> sum(#[trigger] dists@[i]@) <= usize::MAX,
        sum(dists@.map_values(|row: Vec<usize>| spec_average(row@) as usize)) <= usize::MAX,
        sum(dists@.map_values(|row: Vec<usize>| spec_median(row@) as usize)) <= usize::MAX,
    ensures
        r.0@ == dists@.map_values(|row: Vec<usize>| spec_average(row@) as usize),
        r.1@ == dists@.map_values(|row: Vec<usize>| spec_median(row@) as usize),
        r.2 == sum(r.0@) / dists@.len() as int,
        r.3 == sum(r.1@) / dists@.len() as int,
{
    let mut avgs: Vec<usize> = Vec::new();
    let mut medians: Vec<usize> = Vec::new();
    let mut i: usize = 0;
    while i < dists.len()
        invariant
            i <= dists@.len(),
            forall|j: int| 0 <= j < dists@.len() ==> sum(#[trigger] dists@[j]@) <= usize::MAX,
            avgs@ == dists@.take(i as int).map_values(|row: Vec<usize>| spec_average(row@) as usize),
            medians@ == dists@.take(i as int).map_values(|row: Vec<usize>| spec_median(row@) as usize),
        decreases dists@.len() - i,
    {
        let row = &dists[i];
        assert(sum(row@) <= usize::MAX);
        if row.len() == 0 {
            avgs.push(0);
            medians.push(0);
        } else {
            let s = sum_of(row.as_slice());
            avgs.push(s / row.len());
            let sorted = sort(row);
            proof {
                v_sort_len(row@);
            }
            medians.push(sorted[row.len() / 2]);
        }
        i = i + 1;
        assert(avgs@ =~= dists@.take(i as int).map_values(|row: Vec<usize>| spec_average(row@) as usize));
        assert(medians@ =~= dists@.take(i as int).map_values(|row: Vec<usize>| spec_median(row@) as usize));
    }
    assert(dists@.take(dists@.len() as int) =~= dists@);
    let avg_avg = sum_of(avgs.as_slice()) / avgs.len();
    let avg_median = sum_of(medians.as_slice()) / medians.len();
    (avgs, medians, avg_avg, avg_median)
}

/// Sorting keeps the length.
proof fn v_sort_len(s: Seq<usize>)
    ensures
        s.sort_by(usize_leq()).len() == s.len(),
{
    broadcast use vstd::seq_lib::group_to_multiset_ensures;

    s.lemma_sort_by_ensures(usize_leq());
    assert(s.sort_by(usize_leq()).to_multiset().len() == s.to_multiset().len());
}

/// Whether two sequences are the same: the same elements and the same identifier.
pub open spec fn same_sequence(x: Sequence, y: Sequence) -> bool {
    x.elements() == y.elements() && x.identifier() == y.identifier()
}

/// The distances `d` of `s` to the first `n` sequences of `others`, leaving out those that are
/// the same as `s`.
pub open spec fn differing_row(s: Sequence, others: Seq<Sequence>, d: Seq<usize>, n: int) -> Seq<usize>
    decreases n,
{
    if n <= 0 {
        Seq::empty()
    } else {
        let r = differing_row(s, others, d, n - 1);
        if same_sequence(s, others[n - 1]) {
            r
        } else {
            r.push(d[n - 1])
        }
    }
}

/// Row `i`: the distances of the `i`-th sequence of `a` to each sequence of `b` that differs
/// from it, where `d[i][j]` is the distance of `a[i]` to `b[j]`.
pub open spec fn distance_rows(a: Seq<Sequence>, b: Seq<Sequence>, d: Seq<Vec<usize>>) -> Seq<Seq<usize>> {
    Seq::new(a.len(), |i: int| differing_row(a[i], b, d[i]@, b.len() as int))
}

/// Whether two sequences are the same (see [`same_sequence`]).
fn sequences_equal(x: &Sequence, y: &Sequence) -> (r: bool)
    ensures
        r == same_sequence(*x, *y),
{
    let xs = x.as_elements();
    let ys = y.as_elements();
    if xs.len() != ys.len() || !str_equals(x.id(), y.id()) {
        return false;
    }
    let mut i: usize = 0;
    while i < xs.len()
        invariant
            i <= xs@.len(),
            xs@.len() == ys@.len(),
            xs@ == x.elements(),
            ys@ == y.elements(),
            x.identifier() == y.identifier(),
            forall|j: int| 0 <= j < i ==> xs@[j] == ys@[j],
        decreases xs@.len() - i,
    {
        let same = xs[i] == ys[i];
        if !same {
            assert(xs@[i as int] != ys@[i as int]);
            assert(!(xs@ =~= ys@));
            return false;
        }
        i = i + 1;
    }
    assert(xs@ =~= ys@);
    true
}

/// The distances `d` of `s` to each sequence of `others` that differs from it.
fn differing_distances(s: &Sequence, others: &[Sequence], d: &Vec<usize>) -> (r: Vec<usize>)
    requires
        d@.len() == others@.len(),
    ensures
        r@ == differing_row(*s, others@, d@, others@.len() as int),
{
    let mut row: Vec<usize> = Vec::new();
    let mut j: usize = 0;
    while j < others.len()
        invariant
            j <= others@.len(),
            d@.len() == others@.len(),
            row@ == differing_row(*s, others@, d@, j as int),
        decreases others@.len() - j,
    {
        if !sequences_equal(s, &others[j]) {
            row.push(d[j]);
        }
        j = j + 1;
    }
    row
}

/// Average and median distance of each sequence of `a` to the sequences of `b` that differ from
/// it, and the averages of both over `a` (see [`sequence_stats`]); `d[i][j]` is the distance of
/// `a[i]` to `b[j]`.
pub fn sequence_stats_of(a: &[Sequence], b: &[Sequence], d: &[Vec<usize>]) -> (r: (Vec<usize>, Vec<usize>, usize, usize))
    requires
        a@.len() > 0,
        d@.len() == a@.len(),
        forall|i: int| 0 <= i < d@.len() ==> (#[trigger] d@[i])@.len() == b@.len(),
        forall|i: int| 0 <= i < a@.len() ==> sum(#[trigger] distance_rows(a@, b@, d@)[i]) <= usize::MAX,
        sum(distance_rows(a@, b@, d@).map_values(|row: Seq<usize>| spec_average(row) as usize)) <= usize::MAX,
        sum(distance_rows(a@, b@, d@).map_values(|row: Seq<usize>| spec_median(row) as usize)) <= usize::MAX,
    ensures
        r.0@ == distance_rows(a@, b@, d@).map_values(|row: Seq<usize>| spec_average(row) as usize),
        r.1@ == distance_rows(a@, b@, d@).map_values(|row: Seq<usize>| spec_median(row) as usize),
        r.2 == sum(r.0@) / a@.len() as int,
        r.3 == sum(r.1@) / a@.len() as int,
{
    let ghost spec_rows = distance_rows(a@, b@, d@);
    let mut rows: Vec<Vec<usize>> = Vec::new();
    let mut i: usize = 0;
    while i < a.len()
        invariant
            i <= a@.len(),
            d@.len() == a@.len(),
            spec_rows == distance_rows(a@, b@, d@),
            forall|x: int| 0 <= x < d@.len() ==> (#[trigger] d@[x])@.len() == b@.len(),
            rows@.len() == i,
            forall|x: int| 0 <= x < i ==> (#[trigger] rows@[x])@ == spec_rows[x],
        decreases a@.len() - i,
    {
        let row = differing_distances(&a[i], b, &d[i]);
        rows.push(row);
        i = i + 1;
    }
    let ghost view = rows@.map_values(|row: Vec<usize>| row@);
    assert(view =~= spec_rows);
    assert(rows@.map_values(|row: Vec<usize>| spec_average(row@) as usize) =~= spec_rows.map_values(
        |row: Seq<usize>| spec_average(row) as usize,
    ));
    assert(rows@.map_values(|row: Vec<usize>| spec_median(row@) as usize) =~= spec_rows.map_values(
        |row: Seq<usize>| spec_median(row) as usize,
    ));
    assert forall|x: int| 0 <= x < rows@.len() implies sum(#[trigger] rows@[x]@) <= usize::MAX by {
        assert(rows@[x]@ == spec_rows[x]);
    }
    sequence_stats(rows.as_slice())
}

} // verus!
