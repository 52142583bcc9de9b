//! Counting the qualities of classification results, per `k`, per domain and per label.

use crate::keyed::{
    entry_of, keys_unique, lemma_entry_of_upsert, lemma_key_index_unique, lemma_upsert_keys_unique, upsert, key_index,
    lemma_key_index_absent, lemma_key_index_bounds, lemma_key_index_first,
};
use crate::knn::{quality_computable, spec_quality, ClassificationResult, ClassificationResultQuality};
use vstd::prelude::*;

verus! {

/// The number of result counters: one per quality, each with and without a known reason.
pub const RESULT_SLOTS: usize = 14;

/// The position of a quality among the qualities, from worst to best.
pub open spec fn spec_quality_index(q: ClassificationResultQuality) -> int {
    match q {
        ClassificationResultQuality::NoResult => 0,
        ClassificationResultQuality::Wrong => 1,
        ClassificationResultQuality::Contains => 2,
        ClassificationResultQuality::PluralityThenMinDist => 3,
        ClassificationResultQuality::Plurality => 4,
        ClassificationResultQuality::Majority => 5,
        ClassificationResultQuality::Exact => 6,
    }
}

/// The position of a quality among the qualities, from worst to best.
pub fn quality_index(q: ClassificationResultQuality) -> (r: usize)
    ensures
        r == spec_quality_index(q),
{
    match q {
        ClassificationResultQuality::NoResult => 0,
        ClassificationResultQuality::Wrong => 1,
        ClassificationResultQuality::Contains => 2,
        ClassificationResultQuality::PluralityThenMinDist => 3,
        ClassificationResultQuality::Plurality => 4,
        ClassificationResultQuality::Majority => 5,
        ClassificationResultQuality::Exact => 6,
    }
}

/// The counter of results of quality `q`, with a known reason or without.
pub open spec fn slot(q: ClassificationResultQuality, with_reason: bool) -> int {
    2 * spec_quality_index(q) + if with_reason {
        1int
    } else {
        0int
    }
}



/// A counter as values: the result counts by slot, and how often each reason occurred.
pub type CounterView = (Seq<usize>, Seq<(Seq<char>, usize)>);

/// The counts of one `k`: per true domain, per label, and over all.
pub type InternalView = (Seq<(Seq<char>, CounterView)>, Seq<(Seq<char>, CounterView)>, CounterView);

/// The sum of the reason counts.
pub open spec fn reasons_total(rs: Seq<(Seq<char>, usize)>) -> int
    decreases rs.len(),
{
    if rs.len() == 0 {
        0
    } else {
        reasons_total(rs.drop_last()) + rs.last().1
    }
}

proof fn lemma_reasons_total_update(rs: Seq<(Seq<char>, usize)>, i: int, e: (Seq<char>, usize))
    requires
        0 <= i < rs.len(),
    ensures
        reasons_total(rs.update(i, e)) == reasons_total(rs) - rs[i].1 + e.1,
    decreases rs.len(),
{
    if i < rs.len() - 1 {
        lemma_reasons_total_update(rs.drop_last(), i, e);
        assert(rs.update(i, e).drop_last() =~= rs.drop_last().update(i, e));
    } else {
        assert(rs.update(i, e).drop_last() =~= rs.drop_last());
    }
}

proof fn lemma_reasons_total_nonneg(rs: Seq<(Seq<char>, usize)>)
    ensures
        reasons_total(rs) >= 0,
    decreases rs.len(),
{
    if rs.len() > 0 {
        lemma_reasons_total_nonneg(rs.drop_last());
    }
}

/// A counter without results.
pub open spec fn empty_counter() -> CounterView {
    (Seq::new(RESULT_SLOTS as nat, |i: int| 0usize), Seq::empty())
}

/// Counts without results.
pub open spec fn empty_internal() -> InternalView {
    (Seq::empty(), Seq::empty(), empty_counter())
}

/// `rs` with one more occurrence of the reason `r`.
pub open spec fn bump_reason(rs: Seq<(Seq<char>, usize)>, r: Seq<char>) -> Seq<(Seq<char>, usize)> {
    match key_index(rs, r) {
        Some(i) => rs.update(i, (r, (rs[i].1 + 1) as usize)),
        None => rs.push((r, 1usize)),
    }
}

/// The counter with one more result of quality `q` and the reason `reason`, if any.
pub open spec fn counter_update(c: CounterView, q: ClassificationResultQuality, reason: Option<Seq<char>>) -> CounterView {
    let s = slot(q, reason is Some);
    (
        c.0.update(s, (c.0[s] + 1) as usize),
        match reason {
            Some(r) => bump_reason(c.1, r),
            None => c.1,
        },
    )
}

/// The counters per key `ds` with one more result for `d`.
pub open spec fn domain_update(
    ds: Seq<(Seq<char>, CounterView)>,
    d: Seq<char>,
    q: ClassificationResultQuality,
    reason: Option<Seq<char>>,
) -> Seq<(Seq<char>, CounterView)> {
    match key_index(ds, d) {
        Some(i) => ds.update(i, (d, counter_update(ds[i].1, q, reason))),
        None => ds.push((d, counter_update(empty_counter(), q, reason))),
    }
}

/// The counts of one `k` with one more result.
pub open spec fn internal_update(
    iv: InternalView,
    true_domain: Seq<char>,
    mapped_domain: Seq<char>,
    q: ClassificationResultQuality,
    reason: Option<Seq<char>>,
) -> InternalView {
    (
        domain_update(iv.0, true_domain, q, reason),
        domain_update(iv.1, mapped_domain, q, reason),
        counter_update(iv.2, q, reason),
    )
}

/// All counts with one more result for `k`.
pub open spec fn collector_update(
    cv: Seq<(u8, InternalView)>,
    k: u8,
    true_domain: Seq<char>,
    mapped_domain: Seq<char>,
    q: ClassificationResultQuality,
    reason: Option<Seq<char>>,
) -> Seq<(u8, InternalView)> {
    match key_index(cv, k) {
        Some(i) => cv.update(i, (k, internal_update(cv[i].1, true_domain, mapped_domain, q, reason))),
        None => cv.push((k, internal_update(empty_internal(), true_domain, mapped_domain, q, reason))),
    }
}

/// Result counts and reason counts of a set of classifications.
pub struct StatsCounter {
    results: Vec<usize>,
    reasons: Vec<(String, usize)>,
}

/// The counts of one `k`.
pub struct StatsInternal {
    true_domain: Vec<(String, StatsCounter)>,
    mapped_domain: Vec<(String, StatsCounter)>,
    global: StatsCounter,
}

/// Counts of the qualities of classification results, per `k`.
pub struct StatsCollector {
    data: Vec<(u8, StatsInternal)>,
    updates: usize,
}

pub open spec fn reasons_view(rs: Seq<(String, usize)>) -> Seq<(Seq<char>, usize)> {
    rs.map_values(|e: (String, usize)| (e.0@, e.1))
}

impl StatsCounter {
    pub closed spec fn view(&self) -> CounterView {
        (self.results@, reasons_view(self.reasons@))
    }

    /// The counter holds one count per slot, and no count, nor the sum of the reason counts,
    /// is larger than `bound`.
    pub closed spec fn bounded(&self, bound: nat) -> bool {
        &&& self.results@.len() == RESULT_SLOTS
        &&& forall|i: int| 0 <= i < RESULT_SLOTS ==> #[trigger] self.results@[i] <= bound
        &&& reasons_total(reasons_view(self.reasons@)) <= bound
    }

    fn new() -> (r: Self)
        ensures
            r@ == empty_counter(),
            r.bounded(0),
    {
        let mut results: Vec<usize> = Vec::new();
        let mut i: usize = 0;
        while i < RESULT_SLOTS
            invariant
                i <= RESULT_SLOTS,
                results@ == Seq::new(i as nat, |j: int| 0usize),
            decreases RESULT_SLOTS - i,
        {
            results.push(0);
            i = i + 1;
            assert(results@ =~= Seq::new(i as nat, |j: int| 0usize));
        }
        let r = StatsCounter { results, reasons: Vec::new() };
        assert(r@.1 =~= Seq::<(Seq<char>, usize)>::empty());
        r
    }

    /// Counts one more result of quality `q` with the reason `reason`, if any.
    fn update(&mut self, q: ClassificationResultQuality, reason: &Option<String>, Ghost(bound): Ghost<nat>)
        requires
            old(self).bounded(bound),
            bound < usize::MAX,
        ensures
            final(self)@ == counter_update(old(self)@, q, opt_view(*reason)),
            final(self).bounded(bound + 1),
    {
        let s = 2 * quality_index(q) + if reason.is_some() {
            1
        } else {
            0
        };
        let old_count = self.results[s];
        self.results.set(s, old_count + 1);
        if let Some(r) = reason {
            let ghost rs = reasons_view(self.reasons@);
            let mut j: usize = 0;
            while j < self.reasons.len() && !string_eq(&self.reasons[j].0, r)
                invariant
                    j <= self.reasons@.len(),
                    rs == reasons_view(self.reasons@),
                    forall|x: int| 0 <= x < j ==> rs[x].0 != r@,
                decreases self.reasons@.len() - j,
            {
                j = j + 1;
            }
            if j < self.reasons.len() {
                proof {
                    lemma_key_index_first(rs, r@, j as int);
                }
                let count = self.reasons[j].1;
                proof {
                    lemma_reasons_total_update(rs, j as int, (r@, (rs[j as int].1 + 1) as usize));
                    lemma_reasons_total_below(rs, j as int);
                }
                let name = r.clone();
                self.reasons.set(j, (name, count + 1));
                assert(reasons_view(self.reasons@) =~= rs.update(j as int, (r@, (rs[j as int].1 + 1) as usize)));
            } else {
                proof {
                    lemma_key_index_absent(rs, r@);
                }
                self.reasons.push((r.clone(), 1));
                assert(reasons_view(self.reasons@) =~= rs.push((r@, 1usize)));
                assert(rs.push((r@, 1usize)).drop_last() =~= rs);
            }
        }
    }
}

/// The reason as characters, if any.
pub open spec fn opt_view(o: Option<String>) -> Option<Seq<char>> {
    match o {
        Some(s) => Some(s@),
        None => None,
    }
}

fn string_eq(a: &String, b: &String) -> (r: bool)
    ensures
        r == (a@ == b@),
{
    a.eq(b)
}

/// A single reason count is at most the sum of all.
proof fn lemma_reasons_total_below(rs: Seq<(Seq<char>, usize)>, i: int)
    requires
        0 <= i < rs.len(),
    ensures
        rs[i].1 <= reasons_total(rs),
    decreases rs.len(),
{
    lemma_reasons_total_nonneg(rs.drop_last());
    if i < rs.len() - 1 {
        lemma_reasons_total_below(rs.drop_last(), i);
    }
}





/// The counters per key as values.
pub open spec fn domains_view(ds: Seq<(String, StatsCounter)>) -> Seq<(Seq<char>, CounterView)> {
    ds.map_values(|e: (String, StatsCounter)| (e.0@, e.1@))
}

/// Whether all counters per key are bounded by `bound`.
pub open spec fn domains_bounded(ds: Seq<(String, StatsCounter)>, bound: nat) -> bool {
    forall|i: int| 0 <= i < ds.len() ==> (#[trigger] ds[i]).1.bounded(bound)
}

proof fn lemma_counter_bound_grows(c: StatsCounter, a: nat, b: nat)
    requires
        c.bounded(a),
        a <= b,
    ensures
        c.bounded(b),
{
}

/// Counts one more result for the key `d`.
fn update_domain(
    ds: &mut Vec<(String, StatsCounter)>,
    d: &String,
    q: ClassificationResultQuality,
    reason: &Option<String>,
    Ghost(bound): Ghost<nat>,
)
    requires
        domains_bounded(old(ds)@, bound),
        bound < usize::MAX,
    ensures
        domains_view(final(ds)@) == domain_update(domains_view(old(ds)@), d@, q, opt_view(*reason)),
        domains_bounded(final(ds)@, bound + 1),
{
    let ghost dv = domains_view(ds@);
    let mut j: usize = 0;
    while j < ds.len() && !string_eq(&ds[j].0, d)
        invariant
            j <= ds@.len(),
            dv == domains_view(ds@),
            forall|x: int| 0 <= x < j ==> dv[x].0 != d@,
        decreases ds@.len() - j,
    {
        j = j + 1;
    }
    let ghost before = ds@;
    if j < ds.len() {
        proof {
            lemma_key_index_first(dv, d@, j as int);
        }
        let (name, mut counter) = ds.remove(j);
        assert(counter == before[j as int].1);
        counter.update(q, reason, Ghost(bound));
        ds.insert(j, (name, counter));
        assert(domains_view(ds@) =~= dv.update(j as int, (d@, counter_update(dv[j as int].1, q, opt_view(*reason)))));
        assert forall|i: int| 0 <= i < ds@.len() implies (#[trigger] ds@[i]).1.bounded(bound + 1) by {
            if i != j {
                lemma_counter_bound_grows(before[i].1, bound, bound + 1);
            }
        }
    } else {
        proof {
            lemma_key_index_absent(dv, d@);
        }
        let mut counter = StatsCounter::new();
        counter.update(q, reason, Ghost(0));
        ds.push((d.clone(), counter));
        assert(domains_view(ds@) =~= dv.push((d@, counter_update(empty_counter(), q, opt_view(*reason)))));
        assert forall|i: int| 0 <= i < ds@.len() implies (#[trigger] ds@[i]).1.bounded(bound + 1) by {
            if i < before.len() {
                lemma_counter_bound_grows(before[i].1, bound, bound + 1);
            } else {
                lemma_counter_bound_grows(counter, 1, bound + 1);
            }
        }
    }
}

impl StatsInternal {
    pub closed spec fn view(&self) -> InternalView {
        (domains_view(self.true_domain@), domains_view(self.mapped_domain@), self.global@)
    }

    pub closed spec fn bounded(&self, bound: nat) -> bool {
        &&& domains_bounded(self.true_domain@, bound)
        &&& domains_bounded(self.mapped_domain@, bound)
        &&& self.global.bounded(bound)
    }

    fn new() -> (r: Self)
        ensures
            r@ == empty_internal(),
            r.bounded(0),
    {
        let r = StatsInternal {
            true_domain: Vec::new(),
            mapped_domain: Vec::new(),
            global: StatsCounter::new(),
        };
        assert(r@.0 =~= Seq::<(Seq<char>, CounterView)>::empty());
        assert(r@.1 =~= Seq::<(Seq<char>, CounterView)>::empty());
        r
    }

    fn update(
        &mut self,
        true_domain: &String,
        mapped_domain: &String,
        q: ClassificationResultQuality,
        reason: &Option<String>,
        Ghost(bound): Ghost<nat>,
    )
        requires
            old(self).bounded(bound),
            bound < usize::MAX,
        ensures
            final(self)@ == internal_update(old(self)@, true_domain@, mapped_domain@, q, opt_view(*reason)),
            final(self).bounded(bound + 1),
    {
        update_domain(&mut self.true_domain, true_domain, q, reason, Ghost(bound));
        update_domain(&mut self.mapped_domain, mapped_domain, q, reason, Ghost(bound));
        self.global.update(q, reason, Ghost(bound));
    }
}

impl StatsCollector {
    /// The counts per `k`, in the order the values of `k` first occurred.
    pub closed spec fn view(&self) -> Seq<(u8, InternalView)> {
        self.data@.map_values(|e: (u8, StatsInternal)| (e.0, e.1@))
    }

    /// The number of results counted.
    pub closed spec fn updates(&self) -> nat {
        self.updates as nat
    }

    pub closed spec fn wf(&self) -> bool {
        forall|i: int| 0 <= i < self.data@.len() ==> (#[trigger] self.data@[i]).1.bounded(
            self.updates as nat,
        )
    }

    /// A collector without results.
    pub fn new() -> (r: Self)
        ensures
            r.wf(),
            r@ == Seq::<(u8, InternalView)>::empty(),
            r.updates() == 0,
    {
        let r = StatsCollector { data: Vec::new(), updates: 0 };
        assert(r@ =~= Seq::<(u8, InternalView)>::empty());
        r
    }

    /// The number of results counted.
    pub fn total_updates(&self) -> (r: usize)
        ensures
            r == self.updates(),
    {
        self.updates
    }

    /// Counts the quality `result` of a classification with `k` neighbours of a sequence of
    /// `true_domain` with label `mapped_domain`, and the known reason for problems, if any.
    pub fn update(
        &mut self,
        k: u8,
        true_domain: String,
        mapped_domain: String,
        result: ClassificationResultQuality,
        known_problems: Option<String>,
    )
        requires
            old(self).wf(),
            old(self).updates() < usize::MAX,
        ensures
            final(self).wf(),
            final(self).updates() == old(self).updates() + 1,
            final(self)@ == collector_update(
                old(self)@,
                k,
                true_domain@,
                mapped_domain@,
                result,
                opt_view(known_problems),
            ),
    {
        let ghost cv = self@;
        let ghost bound = self.updates as nat;
        let mut j: usize = 0;
        while j < self.data.len() && self.data[j].0 != k
            invariant
                j <= self.data@.len(),
                cv == self@,
                forall|x: int| 0 <= x < j ==> cv[x].0 != k,
            decreases self.data@.len() - j,
        {
            j = j + 1;
        }
        let ghost before = self.data@;
        if j < self.data.len() {
            proof {
                lemma_key_index_first(cv, k, j as int);
            }
            let (key, mut internal) = self.data.remove(j);
            assert(internal == before[j as int].1);
            internal.update(&true_domain, &mapped_domain, result, &known_problems, Ghost(bound));
            self.data.insert(j, (key, internal));
            assert(self@ =~= cv.update(
                j as int,
                (k, internal_update(cv[j as int].1, true_domain@, mapped_domain@, result, opt_view(known_problems))),
            ));
            assert forall|i: int| 0 <= i < self.data@.len() implies (#[trigger] self.data@[i]).1.bounded(
                bound + 1,
            ) by {
                if i != j {
                    lemma_internal_bound_grows(before[i].1, bound, bound + 1);
                }
            }
        } else {
            proof {
                lemma_key_index_absent(cv, k);
            }
            let mut internal = StatsInternal::new();
            internal.update(&true_domain, &mapped_domain, result, &known_problems, Ghost(0));
            self.data.push((k, internal));
            assert(self@ =~= cv.push(
                (k, internal_update(empty_internal(), true_domain@, mapped_domain@, result, opt_view(known_problems))),
            ));
            assert forall|i: int| 0 <= i < self.data@.len() implies (#[trigger] self.data@[i]).1.bounded(
                bound + 1,
            ) by {
                if i < before.len() {
                    lemma_internal_bound_grows(before[i].1, bound, bound + 1);
                } else {
                    lemma_internal_bound_grows(internal, 1, bound + 1);
                }
            }
        }
        self.updates = self.updates + 1;
    }
}

proof fn lemma_internal_bound_grows(s: StatsInternal, a: nat, b: nat)
    requires
        s.bounded(a),
        a <= b,
    ensures
        s.bounded(b),
{
    assert forall|i: int| 0 <= i < s.true_domain@.len() implies (#[trigger] s.true_domain@[i]).1.bounded(b) by {
        lemma_counter_bound_grows(s.true_domain@[i].1, a, b);
    }
    assert forall|i: int| 0 <= i < s.mapped_domain@.len() implies (#[trigger] s.mapped_domain@[i]).1.bounded(b) by {
        lemma_counter_bound_grows(s.mapped_domain@[i].1, a, b);
    }
    lemma_counter_bound_grows(s.global, a, b);
}

// ---------------------------------------------------------------------------------------------
// Reports

/// One line of the statistics: the counts of one true domain for one `k`.
#[derive(Clone, Debug)]
pub struct StatsRow {
    pub k: u8,
    pub label: String,
    /// The result counts by slot (see [`slot`]).
    pub results: Vec<usize>,
    /// How many results had a known reason.
    pub reasons: usize,
}

/// A row as values.
pub type RowView = (u8, Seq<char>, Seq<usize>, int);

pub open spec fn row_view(r: StatsRow) -> RowView {
    (r.k, r.label@, r.results@, r.reasons as int)
}

/// The rows of the true domains of one `k`, in the order the domains first occurred.
pub open spec fn domain_rows(k: u8, ds: Seq<(Seq<char>, CounterView)>) -> Seq<RowView> {
    ds.map_values(|e: (Seq<char>, CounterView)| (k, e.0, e.1.0, reasons_total(e.1.1)))
}

/// The rows of all values of `k` below `n`, in ascending order of `k`.
pub open spec fn rows_below(cv: Seq<(u8, InternalView)>, n: nat) -> Seq<RowView>
    decreases n,
{
    if n == 0 {
        Seq::empty()
    } else {
        rows_below(cv, (n - 1) as nat) + match key_index(cv, (n - 1) as u8) {
            Some(i) => domain_rows((n - 1) as u8, cv[i].1.0),
            None => Seq::empty(),
        }
    }
}

/// The values of `k` below `n` that were counted, in ascending order.
pub open spec fn keys_below(cv: Seq<(u8, InternalView)>, n: nat) -> Seq<u8>
    decreases n,
{
    if n == 0 {
        Seq::empty()
    } else {
        keys_below(cv, (n - 1) as nat) + if key_index(cv, (n - 1) as u8) is Some {
            seq![(n - 1) as u8]
        } else {
            Seq::empty()
        }
    }
}



impl StatsCounter {
    fn copy_results(&self) -> (r: Vec<usize>)
        ensures
            r@ == self.results@,
    {
        let mut out: Vec<usize> = Vec::new();
        let mut i: usize = 0;
        while i < self.results.len()
            invariant
                i <= self.results@.len(),
                out@ == self.results@.take(i as int),
            decreases self.results@.len() - i,
        {
            out.push(self.results[i]);
            i = i + 1;
            assert(out@ =~= self.results@.take(i as int));
        }
        assert(self.results@.take(self.results@.len() as int) =~= self.results@);
        out
    }

    fn reason_count(&self, Ghost(bound): Ghost<nat>) -> (r: usize)
        requires
            self.bounded(bound),
            bound <= usize::MAX,
        ensures
            r == reasons_total(self@.1),
    {
        let ghost rs = reasons_view(self.reasons@);
        let mut total: usize = 0;
        let mut i: usize = 0;
        while i < self.reasons.len()
            invariant
                i <= self.reasons@.len(),
                rs == reasons_view(self.reasons@),
                reasons_total(rs) <= bound,
                bound <= usize::MAX,
                total == reasons_total(rs.take(i as int)),
            decreases self.reasons@.len() - i,
        {
            assert(rs.take(i + 1).drop_last() =~= rs.take(i as int));
            proof {
                lemma_reasons_total_prefix(rs, i + 1);
            }
            total = total + self.reasons[i].1;
            i = i + 1;
        }
        assert(rs.take(rs.len() as int) =~= rs);
        total
    }
}

proof fn lemma_reasons_total_prefix(rs: Seq<(Seq<char>, usize)>, k: int)
    requires
        0 <= k <= rs.len(),
    ensures
        reasons_total(rs.take(k)) <= reasons_total(rs),
    decreases rs.len(),
{
    if k < rs.len() {
        assert(rs.drop_last().take(k) =~= rs.take(k));
        lemma_reasons_total_prefix(rs.drop_last(), k);
    } else {
        assert(rs.take(k) =~= rs);
    }
}

impl StatsCollector {
    /// The statistics per `k` (ascending) and true domain: the result counts and how many
    /// results had a known reason.
    pub fn stats_rows(&self) -> (r: Vec<StatsRow>)
        requires
            self.wf(),
        ensures
            r@.map_values(|row: StatsRow| row_view(row)) == rows_below(self@, 256),
    {
        let ghost cv = self@;
        let mut out: Vec<StatsRow> = Vec::new();
        let mut k: u16 = 0;
        assert(out@.map_values(|row: StatsRow| row_view(row)) =~= rows_below(cv, 0));
        while k < 256
            invariant
                k <= 256,
                cv == self@,
                self.wf(),
                out@.map_values(|row: StatsRow| row_view(row)) == rows_below(cv, k as nat),
            decreases 256 - k,
        {
            let key = k as u8;
            let mut j: usize = 0;
            while j < self.data.len() && self.data[j].0 != key
                invariant
                    j <= self.data@.len(),
                    cv == self@,
                    forall|x: int| 0 <= x < j ==> cv[x].0 != key,
                decreases self.data@.len() - j,
            {
                j = j + 1;
            }
            let ghost before = out@.map_values(|row: StatsRow| row_view(row));
            if j < self.data.len() {
                proof {
                    lemma_key_index_first(cv, key, j as int);
                }
                let internal = &self.data[j].1;
                let ghost ds = domains_view(internal.true_domain@);
                assert(ds == cv[j as int].1.0);
                let mut d: usize = 0;
                while d < internal.true_domain.len()
                    invariant
                        d <= internal.true_domain@.len(),
                        ds == domains_view(internal.true_domain@),
                        domains_bounded(internal.true_domain@, self.updates as nat),
                        out@.map_values(|row: StatsRow| row_view(row)) == before + domain_rows(key, ds.take(d as int)),
                    decreases internal.true_domain@.len() - d,
                {
                    let entry = &internal.true_domain[d];
                    assert(entry.1.bounded(self.updates as nat));
                    let row = StatsRow {
                        k: key,
                        label: entry.0.clone(),
                        results: entry.1.copy_results(),
                        reasons: entry.1.reason_count(Ghost(self.updates as nat)),
                    };
                    let ghost prev = out@;
                    assert(ds[d as int] == (entry.0@, entry.1@));
                    assert(row_view(row) == (key, ds[d as int].0, ds[d as int].1.0, reasons_total(
                        ds[d as int].1.1,
                    )));
                    assert(ds.take(d + 1) =~= ds.take(d as int).push(ds[d as int]));
                    assert(domain_rows(key, ds.take(d + 1)) =~= domain_rows(key, ds.take(d as int)).push(
                        row_view(row),
                    ));
                    let ghost rv = row_view(row);
                    out.push(row);
                    assert(out@ == prev.push(row));
                    assert(out@.map_values(|row: StatsRow| row_view(row)) =~= prev.map_values(
                        |row: StatsRow| row_view(row),
                    ).push(rv));
                    assert(out@.map_values(|row: StatsRow| row_view(row)) =~= before + domain_rows(key, ds.take(d + 1)));
                    d = d + 1;
                }
                assert(ds.take(ds.len() as int) =~= ds);
            } else {
                proof {
                    lemma_key_index_absent(cv, key);
                }
                assert(before + Seq::<RowView>::empty() =~= before);
            }
            assert(((k + 1) as nat - 1) as u8 == key);
            k = k + 1;
        }
        out
    }
}

/// The sum of the result counts from slot `from` on.
pub open spec fn slot_sum(s: Seq<usize>, from: int) -> int
    decreases RESULT_SLOTS - from,
{
    if from >= RESULT_SLOTS || from < 0 {
        0
    } else {
        s[from] + slot_sum(s, from + 1)
    }
}

/// How many results of a counter have quality `q` or better.
pub open spec fn corrects(c: CounterView, q: ClassificationResultQuality) -> int {
    slot_sum(c.0, 2 * spec_quality_index(q))
}

/// For each number of results from 0 to 10: how many of the counters have that many results of
/// quality `q` or better.
pub open spec fn histogram(ds: Seq<(Seq<char>, CounterView)>, q: ClassificationResultQuality) -> Seq<int>
    decreases ds.len(),
{
    if ds.len() == 0 {
        Seq::new(11, |i: int| 0int)
    } else {
        let h = histogram(ds.drop_last(), q);
        let c = corrects(ds.last().1, q);
        h.update(c, h[c] + 1)
    }
}

/// The qualities from worst to best.
pub open spec fn all_qualities() -> Seq<ClassificationResultQuality> {
    seq![
        ClassificationResultQuality::NoResult,
        ClassificationResultQuality::Wrong,
        ClassificationResultQuality::Contains,
        ClassificationResultQuality::PluralityThenMinDist,
        ClassificationResultQuality::Plurality,
        ClassificationResultQuality::Majority,
        ClassificationResultQuality::Exact,
    ]
}

/// Whether no true domain has more than ten results for any `k`.
pub open spec fn at_most_ten_results(cv: Seq<(u8, InternalView)>) -> bool {
    forall|i: int, j: int|
        0 <= i < cv.len() && 0 <= j < cv[i].1.0.len() ==> slot_sum(#[trigger] cv[i].1.0[j].1.0, 0)
            <= 10
}

proof fn lemma_slot_sum_monotone(s: Seq<usize>, a: int, b: int)
    requires
        0 <= a <= b,
    ensures
        0 <= slot_sum(s, b) <= slot_sum(s, a),
    decreases b - a,
{
    if a < b {
        lemma_slot_sum_monotone(s, a + 1, b);
    } else {
        lemma_slot_sum_nonneg(s, a);
    }
}

proof fn lemma_slot_sum_nonneg(s: Seq<usize>, a: int)
    ensures
        slot_sum(s, a) >= 0,
    decreases RESULT_SLOTS - a,
{
    if 0 <= a < RESULT_SLOTS {
        lemma_slot_sum_nonneg(s, a + 1);
    }
}

proof fn lemma_histogram_len(ds: Seq<(Seq<char>, CounterView)>, q: ClassificationResultQuality)
    requires
        forall|j: int| 0 <= j < ds.len() ==> slot_sum(#[trigger] ds[j].1.0, 0) <= 10,
    ensures
        histogram(ds, q).len() == 11,
        forall|x: int| 0 <= x < 11 ==> 0 <= #[trigger] histogram(ds, q)[x] <= ds.len(),
    decreases ds.len(),
{
    if ds.len() > 0 {
        lemma_histogram_len(ds.drop_last(), q);
        assert(slot_sum(ds[ds.len() - 1].1.0, 0) <= 10);
        lemma_slot_sum_monotone(ds.last().1.0, 0, 2 * spec_quality_index(q));
    }
}

/// Whether `hs` are, for each quality from worst to best, the histogram of the true domains of
/// `k`.
pub open spec fn histograms_match(cv: Seq<(u8, InternalView)>, k: u8, hs: Seq<Seq<usize>>) -> bool {
    &&& key_index(cv, k) is Some
    &&& hs.len() == 7
    &&& forall|q: int, x: int|
        0 <= q < 7 && 0 <= x < 11 ==> hs[q].len() == 11 && #[trigger] hs[q][x] == histogram(
            cv[key_index(cv, k).unwrap()].1.0,
            all_qualities()[q],
        )[x]
}

/// The histograms as values.
pub open spec fn histograms_view(hs: Seq<Vec<usize>>) -> Seq<Seq<usize>> {
    hs.map_values(|v: Vec<usize>| v@)
}

impl StatsCounter {
    fn corrects_from(&self, from: usize, Ghost(bound): Ghost<nat>) -> (r: usize)
        requires
            self.bounded(bound),
            slot_sum(self.results@, 0) <= 10,
            from <= RESULT_SLOTS,
        ensures
            r == slot_sum(self@.0, from as int),
    {
        proof {
            lemma_slot_sum_monotone(self.results@, 0, from as int);
        }
        let mut total: usize = 0;
        let mut i: usize = RESULT_SLOTS;
        while i > from
            invariant
                from <= i <= RESULT_SLOTS,
                self.results@.len() == RESULT_SLOTS,
                slot_sum(self.results@, from as int) <= 10,
                total == slot_sum(self.results@, i as int),
            decreases i,
        {
            i = i - 1;
            proof {
                lemma_slot_sum_monotone(self.results@, from as int, i as int);
                lemma_slot_sum_nonneg(self.results@, i + 1);
            }
            total = total + self.results[i];
        }
        total
    }
}

/// The histogram of `ds` for quality `q`.
fn histogram_of(ds: &Vec<(String, StatsCounter)>, q: ClassificationResultQuality, Ghost(bound): Ghost<nat>) -> (r: Vec<usize>)
    requires
        domains_bounded(ds@, bound),
        forall|j: int| 0 <= j < ds@.len() ==> slot_sum(#[trigger] domains_view(ds@)[j].1.0, 0) <= 10,
    ensures
        r@.len() == 11,
        forall|x: int| 0 <= x < 11 ==> #[trigger] r@[x] == histogram(domains_view(ds@), q)[x],
{
    let ghost dv = domains_view(ds@);
    let mut counts: Vec<usize> = Vec::new();
    let mut x: usize = 0;
    while x < 11
        invariant
            x <= 11,
            counts@ == Seq::new(x as nat, |i: int| 0usize),
        decreases 11 - x,
    {
        counts.push(0);
        x = x + 1;
        assert(counts@ =~= Seq::new(x as nat, |i: int| 0usize));
    }
    let mut d: usize = 0;
    while d < ds.len()
        invariant
            d <= ds@.len(),
            dv == domains_view(ds@),
            domains_bounded(ds@, bound),
            forall|j: int| 0 <= j < ds@.len() ==> slot_sum(#[trigger] dv[j].1.0, 0) <= 10,
            counts@.len() == 11,
            forall|i: int| 0 <= i < 11 ==> #[trigger] counts@[i] == histogram(dv.take(d as int), q)[i],
        decreases ds@.len() - d,
    {
        let entry = &ds[d];
        assert(dv[d as int] == (entry.0@, entry.1@));
        assert(entry.1.bounded(bound));
        let from = 2 * quality_index(q);
        assert(slot_sum(dv[d as int].1.0, 0) <= 10);
        assert(dv[d as int].1.0 == entry.1.results@);
        proof {
            lemma_slot_sum_monotone(entry.1.results@, 0, from as int);
        }
        let c = entry.1.corrects_from(from, Ghost(bound));
        proof {
            assert(dv.take(d + 1).drop_last() =~= dv.take(d as int));
            assert(dv.take(d + 1).last() == dv[d as int]);
            lemma_histogram_len(dv.take(d as int), q);
            assert forall|j: int| 0 <= j < dv.take(d as int).len() implies slot_sum(
                #[trigger] dv.take(d as int)[j].1.0,
                0,
            ) <= 10 by {
                assert(dv.take(d as int)[j] == dv[j]);
            }
            lemma_slot_sum_monotone(entry.1.results@, 0, from as int);
        }
        let old_count = counts[c];
        counts.set(c, old_count + 1);
        d = d + 1;
    }
    assert(dv.take(dv.len() as int) =~= dv);
    counts
}

impl StatsCollector {
    /// For each counted `k` (ascending) and each quality (worst to best): how many true domains
    /// have 0, 1, ..., 10 results of that quality or better.
    pub fn count_correct(&self) -> (r: Vec<(u8, Vec<Vec<usize>>)>)
        requires
            self.wf(),
            at_most_ten_results(self@),
        ensures
            r@.len() == keys_below(self@, 256).len(),
            forall|i: int|
                0 <= i < r@.len() ==> (#[trigger] r@[i]).0 == keys_below(self@, 256)[i]
                    && histograms_match(self@, r@[i].0, histograms_view(r@[i].1@)),
    {
        let ghost cv = self@;
        let qualities = ClassificationResultQuality::iter_variants();
        let mut out: Vec<(u8, Vec<Vec<usize>>)> = Vec::new();
        let mut k: u16 = 0;
        while k < 256
            invariant
                k <= 256,
                cv == self@,
                self.wf(),
                at_most_ten_results(cv),
                qualities@ == all_qualities(),
                out@.len() == keys_below(cv, k as nat).len(),
                forall|i: int|
                    0 <= i < out@.len() ==> (#[trigger] out@[i]).0 == keys_below(cv, k as nat)[i]
                        && histograms_match(cv, out@[i].0, histograms_view(out@[i].1@)),
            decreases 256 - k,
        {
            let key = k as u8;
            let mut j: usize = 0;
            while j < self.data.len() && self.data[j].0 != key
                invariant
                    j <= self.data@.len(),
                    cv == self@,
                    forall|x: int| 0 <= x < j ==> cv[x].0 != key,
                decreases self.data@.len() - j,
            {
                j = j + 1;
            }
            let ghost before = out@;
            if j < self.data.len() {
                proof {
                    lemma_key_index_first(cv, key, j as int);
                }
                let internal = &self.data[j].1;
                assert(internal.bounded(self.updates as nat));
                assert(domains_view(internal.true_domain@) == cv[j as int].1.0);
                let mut per_quality: Vec<Vec<usize>> = Vec::new();
                let mut qi: usize = 0;
                while qi < 7
                    invariant
                        qi <= 7,
                        qualities@ == all_qualities(),
                        domains_bounded(internal.true_domain@, self.updates as nat),
                        forall|x: int| 0 <= x < internal.true_domain@.len() ==> slot_sum(
                            #[trigger] domains_view(internal.true_domain@)[x].1.0,
                            0,
                        ) <= 10,
                        per_quality@.len() == qi,
                        forall|q: int| 0 <= q < qi ==> (#[trigger] per_quality@[q])@.len() == 11,
                        forall|q: int, x: int|
                            0 <= q < qi && 0 <= x < 11 ==> #[trigger] per_quality@[q]@[x]
                                == histogram(domains_view(internal.true_domain@), all_qualities()[q])[x],
                    decreases 7 - qi,
                {
                    let quality = qualities[qi];
                    assert(quality == all_qualities()[qi as int]);
                    let h = histogram_of(&internal.true_domain, quality, Ghost(self.updates as nat));
                    let ghost old_pq = per_quality@;
                    per_quality.push(h);
                    assert forall|q: int| 0 <= q < qi + 1 implies (#[trigger] per_quality@[q])@.len() == 11 by {
                        if q < qi {
                            assert(per_quality@[q] == old_pq[q]);
                        }
                    }
                    assert forall|q: int, x: int|
                        0 <= q < qi + 1 && 0 <= x < 11 implies #[trigger] per_quality@[q]@[x] == histogram(
                        domains_view(internal.true_domain@),
                        all_qualities()[q],
                    )[x] by {
                        if q < qi {
                            assert(per_quality@[q] == old_pq[q]);
                        } else {
                            assert(per_quality@[q] == h);
                            assert(h@[x] == histogram(domains_view(internal.true_domain@), quality)[x]);
                        }
                    }
                    qi = qi + 1;
                }
                let ghost pq = per_quality@;
                out.push((key, per_quality));
                proof {
                    assert(keys_below(cv, (k + 1) as nat) =~= keys_below(cv, k as nat).push(key));
                    assert(key_index(cv, key) == Some(j as int));
                    assert forall|q: int| 0 <= q < 7 implies #[trigger] histograms_view(pq)[q] == pq[q]@ by {}
                    assert(histograms_match(cv, key, histograms_view(pq)));
                    assert forall|i: int| 0 <= i < out@.len() implies (#[trigger] out@[i]).0
                        == keys_below(cv, (k + 1) as nat)[i] && histograms_match(
                        cv,
                        out@[i].0,
                        histograms_view(out@[i].1@),
                    ) by {
                        if i < before.len() {
                            assert(out@[i] == before[i]);
                        }
                    }
                }
            } else {
                proof {
                    lemma_key_index_absent(cv, key);
                    assert(keys_below(cv, (k + 1) as nat) =~= keys_below(cv, k as nat));
                }
            }
            assert(((k + 1) as nat - 1) as u8 == key);
            k = k + 1;
        }
        out
    }
}


impl StatsCollector {
    /// For each counted `k` (ascending): the result counts by slot over all classifications
    /// with that `k`.
    pub fn global_counts(&self) -> (r: Vec<(u8, Vec<usize>)>)
        requires
            self.wf(),
        ensures
            r@.len() == keys_below(self@, 256).len(),
            forall|i: int|
                0 <= i < r@.len() ==> (#[trigger] r@[i]).0 == keys_below(self@, 256)[i]
                    && key_index(self@, r@[i].0) is Some
                    && r@[i].1@ == self@[key_index(self@, r@[i].0).unwrap()].1.2.0,
    {
        let ghost cv = self@;
        let mut out: Vec<(u8, Vec<usize>)> = Vec::new();
        let mut k: u16 = 0;
        while k < 256
            invariant
                k <= 256,
                cv == self@,
                self.wf(),
                out@.len() == keys_below(cv, k as nat).len(),
                forall|i: int|
                    0 <= i < out@.len() ==> (#[trigger] out@[i]).0 == keys_below(cv, k as nat)[i]
                        && key_index(cv, out@[i].0) is Some
                        && out@[i].1@ == cv[key_index(cv, out@[i].0).unwrap()].1.2.0,
            decreases 256 - k,
        {
            let key = k as u8;
            let mut j: usize = 0;
            while j < self.data.len() && self.data[j].0 != key
                invariant
                    j <= self.data@.len(),
                    cv == self@,
                    forall|x: int| 0 <= x < j ==> cv[x].0 != key,
                decreases self.data@.len() - j,
            {
                j = j + 1;
            }
            let ghost before = out@;
            if j < self.data.len() {
                proof {
                    lemma_key_index_first(cv, key, j as int);
                }
                let internal = &self.data[j].1;
                assert(internal.bounded(self.updates as nat));
                assert(internal.global@.0 == cv[j as int].1.2.0);
                let counts = internal.global.copy_results();
                out.push((key, counts));
                proof {
                    assert(keys_below(cv, (k + 1) as nat) =~= keys_below(cv, k as nat).push(key));
                    assert forall|i: int| 0 <= i < out@.len() implies (#[trigger] out@[i]).0
                        == keys_below(cv, (k + 1) as nat)[i] && key_index(cv, out@[i].0) is Some
                        && out@[i].1@ == cv[key_index(cv, out@[i].0).unwrap()].1.2.0 by {
                        if i < before.len() {
                            assert(out@[i] == before[i]);
                        }
                    }
                }
            } else {
                proof {
                    lemma_key_index_absent(cv, key);
                    assert(keys_below(cv, (k + 1) as nat) =~= keys_below(cv, k as nat));
                }
            }
            assert(((k + 1) as nat - 1) as u8 == key);
            k = k + 1;
        }
        out
    }
}

/// One evaluated classification: true domain, label, quality of the result, and the known
/// reason for problems, if any.
pub type EvaluationView = (Seq<char>, Seq<char>, ClassificationResultQuality, Option<Seq<char>>);

/// The counts after counting each of `items` for `k`, in order.
pub open spec fn evaluated(cv: Seq<(u8, InternalView)>, k: u8, items: Seq<EvaluationView>) -> Seq<(u8, InternalView)>
    decreases items.len(),
{
    if items.len() == 0 {
        cv
    } else {
        let it = items.last();
        collector_update(evaluated(cv, k, items.drop_last()), k, it.0, it.1, it.2, it.3)
    }
}

/// The evaluations of classification results against their labels.
pub open spec fn evaluations(
    results: Seq<ClassificationResult>,
    labels: Seq<(String, String)>,
    reasons: Seq<Option<String>>,
) -> Seq<EvaluationView> {
    Seq::new(
        results.len(),
        |i: int| (labels[i].0@, labels[i].1@, spec_quality(results[i].options(), labels[i].1@), opt_view(reasons[i])),
    )
}

impl StatsCollector {
    /// Counts the classification results of `k` neighbours of test sequences: each result is
    /// rated against the label of its sequence (see [`ClassificationResult::determine_quality`])
    /// and counted for the sequence's true domain and label, with the sequence's known reason
    /// for problems.
    pub fn evaluate(
        &mut self,
        k: u8,
        results: &[ClassificationResult],
        labels: &[(String, String)],
        reasons: &[Option<String>],
    )
        requires
            old(self).wf(),
            results@.len() == labels@.len(),
            results@.len() == reasons@.len(),
            old(self).updates() + results@.len() <= usize::MAX,
            forall|i: int|
                0 <= i < results@.len() ==> (#[trigger] results@[i]).wf() && quality_computable(
                    results@[i].options(),
                    labels@[i].1@,
                ),
        ensures
            final(self).wf(),
            final(self).updates() == old(self).updates() + results@.len(),
            final(self)@ == evaluated(old(self)@, k, evaluations(results@, labels@, reasons@)),
    {
        let ghost start = self@;
        let ghost items = evaluations(results@, labels@, reasons@);
        let mut i: usize = 0;
        while i < results.len()
            invariant
                i <= results@.len(),
                results@.len() == labels@.len(),
                results@.len() == reasons@.len(),
                items == evaluations(results@, labels@, reasons@),
                self.wf(),
                self.updates() == old(self).updates() + i,
                old(self).updates() + results@.len() <= usize::MAX,
                forall|j: int|
                    0 <= j < results@.len() ==> (#[trigger] results@[j]).wf() && quality_computable(
                        results@[j].options(),
                        labels@[j].1@,
                    ),
                self@ == evaluated(start, k, items.take(i as int)),
            decreases results@.len() - i,
        {
            let quality = results[i].determine_quality(labels[i].1.as_str());
            let reason = match &reasons[i] {
                Some(r) => Some(r.clone()),
                None => None,
            };
            self.update(k, labels[i].0.clone(), labels[i].1.clone(), quality, reason);
            assert(items.take(i + 1).drop_last() =~= items.take(i as int));
            i = i + 1;
        }
        assert(items.take(results@.len() as int) =~= items);
    }
}

/// One update of a [`StatsCollector`] as values: `k`, true domain, mapped domain, quality and
/// reason.
pub type UpdateView = (u8, Seq<char>, Seq<char>, ClassificationResultQuality, Option<Seq<char>>);

/// The counts after the updates `us`, made in order on a new collector.
pub open spec fn collected(us: Seq<UpdateView>) -> Seq<(u8, InternalView)>
    decreases us.len(),
{
    if us.len() == 0 {
        Seq::empty()
    } else {
        let u = us.last();
        collector_update(collected(us.drop_last()), u.0, u.1, u.2, u.3, u.4)
    }
}

/// How many of the updates `us` are for `k` and the true domain `t` and count in slot `s`.
pub open spec fn matching_count(us: Seq<UpdateView>, k: u8, t: Seq<char>, s: int) -> int
    decreases us.len(),
{
    if us.len() == 0 {
        0
    } else {
        let u = us.last();
        matching_count(us.drop_last(), k, t, s) + if u.0 == k && u.1 == t && slot(u.3, u.4 is Some)
            == s {
            1int
        } else {
            0int
        }
    }
}

/// How many of the updates `us` are for `k` and the true domain `t` and have a reason.
pub open spec fn reason_count(us: Seq<UpdateView>, k: u8, t: Seq<char>) -> int
    decreases us.len(),
{
    if us.len() == 0 {
        0
    } else {
        let u = us.last();
        reason_count(us.drop_last(), k, t) + if u.0 == k && u.1 == t && u.4 is Some {
            1int
        } else {
            0int
        }
    }
}

/// How many of the updates `us` are for `k` and the true domain `t`.
pub open spec fn domain_count(us: Seq<UpdateView>, k: u8, t: Seq<char>) -> int
    decreases us.len(),
{
    if us.len() == 0 {
        0
    } else {
        let u = us.last();
        domain_count(us.drop_last(), k, t) + if u.0 == k && u.1 == t {
            1int
        } else {
            0int
        }
    }
}

/// The counter of the true domain `t` under `k`, if there is one.
pub open spec fn domain_counter(cv: Seq<(u8, InternalView)>, k: u8, t: Seq<char>) -> Option<CounterView> {
    match entry_of(cv, k) {
        Some(iv) => entry_of(iv.0, t),
        None => None,
    }
}

proof fn lemma_update_is_upsert(
    cv: Seq<(u8, InternalView)>,
    k: u8,
    t: Seq<char>,
    m: Seq<char>,
    q: ClassificationResultQuality,
    r: Option<Seq<char>>,
)
    ensures
        collector_update(cv, k, t, m, q, r) == upsert(
            cv,
            k,
            internal_update(
                match entry_of(cv, k) {
                    Some(iv) => iv,
                    None => empty_internal(),
                },
                t,
                m,
                q,
                r,
            ),
        ),
        forall|ds: Seq<(Seq<char>, CounterView)>|
            #[trigger] domain_update(ds, t, q, r) == upsert(
                ds,
                t,
                counter_update(
                    match entry_of(ds, t) {
                        Some(c) => c,
                        None => empty_counter(),
                    },
                    q,
                    r,
                ),
            ),
{
}

/// Whatever updates were made on a new collector, the counter of each `k` and true domain `t`
/// holds in each slot the number of updates for `k` and `t` that count there, and as many
/// reasons as those updates had; there is a counter exactly when there was such an update.
pub proof fn lemma_collected_counts(us: Seq<UpdateView>, k: u8, t: Seq<char>)
    requires
        us.len() < usize::MAX,
    ensures
        domain_counter(collected(us), k, t) is None <==> domain_count(us, k, t) == 0,
        domain_counter(collected(us), k, t) matches Some(c) ==> {
            &&& c.0.len() == RESULT_SLOTS
            &&& forall|s: int| 0 <= s < RESULT_SLOTS ==> #[trigger] c.0[s] == matching_count(us, k, t, s)
            &&& reasons_total(c.1) == reason_count(us, k, t)
        },
        0 <= reason_count(us, k, t) <= domain_count(us, k, t) <= us.len(),
        forall|s: int| 0 <= s < RESULT_SLOTS ==> 0 <= #[trigger] matching_count(us, k, t, s) <= domain_count(us, k, t),
    decreases us.len(),
{
    if us.len() > 0 {
        let pre = us.drop_last();
        let u = us.last();
        lemma_collected_counts(pre, k, t);
        let cv0 = collected(pre);
        lemma_update_is_upsert(cv0, u.0, u.1, u.2, u.3, u.4);
        let iv0 = match entry_of(cv0, u.0) {
            Some(iv) => iv,
            None => empty_internal(),
        };
        let iv1 = internal_update(iv0, u.1, u.2, u.3, u.4);
        lemma_entry_of_upsert(cv0, u.0, iv1, k);
        assert forall|s: int| 0 <= s < RESULT_SLOTS implies 0 <= #[trigger] matching_count(us, k, t, s) <= domain_count(us, k, t) by {
            assert(matching_count(pre, k, t, s) <= domain_count(pre, k, t));
        }
        if u.0 == k {
            let c0 = match entry_of(iv0.0, u.1) {
                Some(c) => c,
                None => empty_counter(),
            };
            let c1 = counter_update(c0, u.3, u.4);
            lemma_entry_of_upsert(iv0.0, u.1, c1, t);
            assert(iv1.0 == domain_update(iv0.0, u.1, u.3, u.4));
            if u.1 == t {
                assert(domain_counter(cv0, k, t) == entry_of(iv0.0, t)) by {
                    if entry_of(cv0, k) is None {
                        assert(entry_of(iv0.0, t) is None);
                    }
                }
                let sl = slot(u.3, u.4 is Some);
                assert(0 <= sl < RESULT_SLOTS);
                if entry_of(iv0.0, t) is None {
                    assert(c0.0.len() == RESULT_SLOTS);
                    assert(reasons_total(c0.1) == 0);
                    assert forall|s: int| 0 <= s < RESULT_SLOTS implies #[trigger] c0.0[s] == matching_count(pre, k, t, s) by {
                        assert(matching_count(pre, k, t, s) <= domain_count(pre, k, t));
                    }
                    assert(reason_count(pre, k, t) == 0);
                }
                assert(c0.0[sl] == matching_count(pre, k, t, sl));
                assert(c0.0[sl] < usize::MAX);
                match u.4 {
                    Some(r) => {
                        let rs = c0.1;
                        match key_index(rs, r) {
                            Some(i) => {
                                lemma_key_index_bounds(rs, r);
                                lemma_reasons_total_below(rs, i);
                                lemma_reasons_total_update(rs, i, (r, (rs[i].1 + 1) as usize));
                            },
                            None => {
                                assert(rs.push((r, 1usize)).drop_last() =~= rs);
                            },
                        }
                    },
                    None => {},
                }
            }
        }
    }
}

/// Whether no `k` occurs twice among the counts, nor any true domain twice under one `k`.
pub open spec fn counts_unique(cv: Seq<(u8, InternalView)>) -> bool {
    &&& keys_unique(cv)
    &&& forall|i: int| 0 <= i < cv.len() ==> keys_unique(#[trigger] cv[i].1.0)
}

proof fn lemma_collected_unique(us: Seq<UpdateView>)
    ensures
        counts_unique(collected(us)),
    decreases us.len(),
{
    if us.len() > 0 {
        let pre = us.drop_last();
        let u = us.last();
        lemma_collected_unique(pre);
        let cv0 = collected(pre);
        lemma_update_is_upsert(cv0, u.0, u.1, u.2, u.3, u.4);
        lemma_key_index_bounds(cv0, u.0);
        let iv0 = match entry_of(cv0, u.0) {
            Some(iv) => iv,
            None => empty_internal(),
        };
        assert(keys_unique(iv0.0)) by {
            if key_index(cv0, u.0) is Some {
                assert(iv0 == cv0[key_index(cv0, u.0).unwrap()].1);
            }
        }
        let iv1 = internal_update(iv0, u.1, u.2, u.3, u.4);
        let c0 = match entry_of(iv0.0, u.1) {
            Some(c) => c,
            None => empty_counter(),
        };
        assert(iv1.0 == upsert(iv0.0, u.1, counter_update(c0, u.3, u.4)));
        lemma_upsert_keys_unique(iv0.0, u.1, counter_update(c0, u.3, u.4));
        lemma_upsert_keys_unique(cv0, u.0, iv1);
        let cv1 = collected(us);
        assert(cv1 == upsert(cv0, u.0, iv1));
        assert forall|i: int| 0 <= i < cv1.len() implies keys_unique(#[trigger] cv1[i].1.0) by {
            if i < cv0.len() && cv1[i] == cv0[i] {
            } else {
                assert(cv1[i].1 == iv1);
            }
        }
    }
}

/// What the rows of all `k` below `n` are, given that no `k` nor any true domain under one `k`
/// occurs twice.
proof fn lemma_rows_below(cv: Seq<(u8, InternalView)>, n: nat)
    requires
        counts_unique(cv),
        n <= 256,
    ensures
        ({
            let rows = rows_below(cv, n);
            &&& forall|x: int|
                0 <= x < rows.len() ==> (#[trigger] rows[x]).0 < n && domain_counter(cv, rows[x].0, rows[x].1) is Some
                    && rows[x].2 == domain_counter(cv, rows[x].0, rows[x].1).unwrap().0
                    && rows[x].3 == reasons_total(domain_counter(cv, rows[x].0, rows[x].1).unwrap().1)
            &&& forall|x: int, y: int|
                0 <= x < y < rows.len() ==> (#[trigger] rows[x]).0 <= (#[trigger] rows[y]).0 && (rows[x].0,
                    rows[x].1) != (rows[y].0, rows[y].1)
            &&& forall|k: u8, t: Seq<char>|
                k < n && #[trigger] domain_counter(cv, k, t) is Some ==> exists|x: int|
                    0 <= x < rows.len() && (#[trigger] rows[x]).0 == k && rows[x].1 == t
        }),
    decreases n,
{
    if n > 0 {
        let m = (n - 1) as nat;
        let km = m as u8;
        lemma_rows_below(cv, m);
        let r0 = rows_below(cv, m);
        let rows = rows_below(cv, n);
        lemma_key_index_bounds(cv, km);
        match key_index(cv, km) {
            None => {
                assert(rows == r0);
                assert forall|k: u8, t: Seq<char>| k < n && #[trigger] domain_counter(cv, k, t) is Some implies exists|x: int|
                    0 <= x < rows.len() && (#[trigger] rows[x]).0 == k && rows[x].1 == t by {
                    if k == km {
                        assert(entry_of(cv, km) is None);
                    }
                }
            },
            Some(i) => {
                let ds = cv[i].1.0;
                let d = domain_rows(km, ds);
                assert(rows == r0 + d);
                assert(keys_unique(ds));
                assert(entry_of(cv, km) == Some(cv[i].1));
                assert forall|y: int| 0 <= y < d.len() implies domain_counter(cv, km, (#[trigger] d[y]).1) == Some(ds[y].1) by {
                    lemma_key_index_unique(ds, y);
                }
                assert forall|x: int|
                    0 <= x < rows.len() implies (#[trigger] rows[x]).0 < n && domain_counter(cv, rows[x].0, rows[x].1) is Some
                        && rows[x].2 == domain_counter(cv, rows[x].0, rows[x].1).unwrap().0
                        && rows[x].3 == reasons_total(domain_counter(cv, rows[x].0, rows[x].1).unwrap().1) by {
                    if x >= r0.len() {
                        assert(rows[x] == d[x - r0.len()]);
                    } else {
                        assert(rows[x] == r0[x]);
                    }
                }
                assert forall|x: int, y: int|
                    0 <= x < y < rows.len() implies (#[trigger] rows[x]).0 <= (#[trigger] rows[y]).0 && (rows[x].0,
                        rows[x].1) != (rows[y].0, rows[y].1) by {
                    if y < r0.len() {
                        assert(rows[x] == r0[x] && rows[y] == r0[y]);
                    } else if x < r0.len() {
                        assert(rows[x] == r0[x] && rows[y] == d[y - r0.len()]);
                    } else {
                        assert(rows[x] == d[x - r0.len()] && rows[y] == d[y - r0.len()]);
                        assert(ds[x - r0.len()].0 != ds[y - r0.len()].0);
                    }
                }
                assert forall|k: u8, t: Seq<char>| k < n && #[trigger] domain_counter(cv, k, t) is Some implies exists|x: int|
                    0 <= x < rows.len() && (#[trigger] rows[x]).0 == k && rows[x].1 == t by {
                    if k == km {
                        lemma_key_index_bounds(ds, t);
                        let y = key_index(ds, t).unwrap();
                        assert(rows[r0.len() + y] == d[y]);
                        assert(rows[r0.len() + y].0 == k && rows[r0.len() + y].1 == t);
                    } else {
                        let x = choose|x: int| 0 <= x < r0.len() && (#[trigger] r0[x]).0 == k && r0[x].1 == t;
                        assert(rows[x] == r0[x]);
                    }
                }
            },
        }
    }
}

/// Whatever updates were made on a new collector, its rows (see [`StatsCollector::stats_rows`])
/// come in ascending order of `k`, with one row for each `k` and true domain that some update
/// was for and no other; the row of `k` and `t` holds in each slot the number of updates for
/// `k` and `t` that count there, and as many reasons as those updates had.
pub proof fn lemma_rows_of_updates(us: Seq<UpdateView>)
    requires
        us.len() < usize::MAX,
    ensures
        ({
            let rows = rows_below(collected(us), 256);
            &&& forall|x: int, y: int|
                0 <= x < y < rows.len() ==> (#[trigger] rows[x]).0 <= (#[trigger] rows[y]).0 && (rows[x].0,
                    rows[x].1) != (rows[y].0, rows[y].1)
            &&& forall|x: int|
                0 <= x < rows.len() ==> domain_count(us, (#[trigger] rows[x]).0, rows[x].1) > 0
                    && rows[x].2.len() == RESULT_SLOTS && rows[x].3 == reason_count(us, rows[x].0, rows[x].1)
                    && forall|s: int| 0 <= s < RESULT_SLOTS ==> #[trigger] rows[x].2[s] == matching_count(
                    us,
                    rows[x].0,
                    rows[x].1,
                    s,
                )
            &&& forall|k: u8, t: Seq<char>|
                #[trigger] domain_count(us, k, t) > 0 ==> exists|x: int|
                    0 <= x < rows.len() && (#[trigger] rows[x]).0 == k && rows[x].1 == t
        }),
{
    let cv = collected(us);
    let rows = rows_below(cv, 256);
    lemma_collected_unique(us);
    lemma_rows_below(cv, 256);
    assert forall|x: int| 0 <= x < rows.len() implies domain_count(us, (#[trigger] rows[x]).0, rows[x].1) > 0
        && rows[x].2.len() == RESULT_SLOTS && rows[x].3 == reason_count(us, rows[x].0, rows[x].1)
        && forall|s: int| 0 <= s < RESULT_SLOTS ==> #[trigger] rows[x].2[s] == matching_count(us, rows[x].0, rows[x].1, s) by {
        lemma_collected_counts(us, rows[x].0, rows[x].1);
    }
    assert forall|k: u8, t: Seq<char>| #[trigger] domain_count(us, k, t) > 0 implies exists|x: int|
        0 <= x < rows.len() && (#[trigger] rows[x]).0 == k && rows[x].1 == t by {
        lemma_collected_counts(us, k, t);
        assert(k < 256);
        assert(domain_counter(cv, k, t) is Some);
    }
}

} // verus!
