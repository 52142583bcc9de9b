//! Tracking how the cost of one distance computation splits across the edit operations.

use crate::element_text::{decimal, is_digit, lemma_decimal_nonempty, lemma_decimal_value, push_decimal};
use crate::sequence_element::SequenceElement;
use std::collections::BTreeMap;
use vstd::laws_cmp::obeys_cmp;
use vstd::std_specs::iter::IteratorSpec;
use vstd::prelude::*;

verus! {

broadcast use {vstd::std_specs::btree::group_btree_axioms, vstd::laws_cmp::group_laws_cmp};

/// Receives, step by step, which edit operation was the cheapest and the cost reached with it.
pub trait DistanceCostInfo: Sized {
    /// The cost reached so far.
    spec fn cost_so_far(&self) -> nat;

    /// Whether the value is consistent.
    spec fn well_formed(&self) -> bool;

    /// The insert operation was the cheapest, and the cost is now `cost`.
    fn insert(&self, cost: usize, elem1: SequenceElement) -> (r: Self)
        requires
            self.well_formed(),
            self.cost_so_far() <= cost,
        ensures
            r.well_formed(),
            r.cost_so_far() <= cost,
    ;

    /// The delete operation was the cheapest, and the cost is now `cost`.
    fn delete(&self, cost: usize, elem1: SequenceElement) -> (r: Self)
        requires
            self.well_formed(),
            self.cost_so_far() <= cost,
        ensures
            r.well_formed(),
            r.cost_so_far() <= cost,
    ;

    /// The substitute operation was the cheapest, and the cost is now `cost`.
    fn substitute(&self, cost: usize, elem1: SequenceElement, elem2: SequenceElement) -> (r: Self)
        requires
            self.well_formed(),
            self.cost_so_far() <= cost,
        ensures
            r.well_formed(),
            r.cost_so_far() <= cost,
    ;

    /// The swap operation was the cheapest, and the cost is now `cost`.
    fn swap(&self, cost: usize, elem1: SequenceElement, elem2: SequenceElement) -> (r: Self)
        requires
            self.well_formed(),
            self.cost_so_far() <= cost,
        ensures
            r.well_formed(),
            r.cost_so_far() <= cost,
    ;

    /// The computation was aborted early, because the distance already exceeds every distance
    /// of interest.
    fn abort(&self) -> (r: Self)
        requires
            self.well_formed(),
        ensures
            r.well_formed(),
            r.cost_so_far() == self.cost_so_far(),
    ;
}

/// Tracks nothing.
impl DistanceCostInfo for () {
    open spec fn cost_so_far(&self) -> nat {
        0
    }

    open spec fn well_formed(&self) -> bool {
        true
    }

    fn insert(&self, cost: usize, elem1: SequenceElement) -> (r: Self) {
    }

    fn delete(&self, cost: usize, elem1: SequenceElement) -> (r: Self) {
    }

    fn substitute(&self, cost: usize, elem1: SequenceElement, elem2: SequenceElement) -> (r: Self) {
    }

    fn swap(&self, cost: usize, elem1: SequenceElement, elem2: SequenceElement) -> (r: Self) {
    }

    fn abort(&self) -> (r: Self) {
    }
}

/// One of the counters of a [`CostTracker`].
#[derive(Clone, Copy, Debug, PartialEq, Eq, Structural)]
pub enum CostKind {
    InsertGap,
    InsertSize,
    DeleteGap,
    DeleteSize,
    SubstituteGapGap,
    SubstituteGapSize,
    SubstituteSizeGap,
    SubstituteSizeSize,
    SwapGapGap,
    SwapGapSize,
    SwapSizeGap,
    SwapSizeSize,
}

/// The counter an insert of `e` adds to.
pub open spec fn insert_kind(e: SequenceElement) -> CostKind {
    match e {
        SequenceElement::Gap(_) => CostKind::InsertGap,
        SequenceElement::Size(_) => CostKind::InsertSize,
    }
}

/// The counter a delete of `e` adds to.
pub open spec fn delete_kind(e: SequenceElement) -> CostKind {
    match e {
        SequenceElement::Gap(_) => CostKind::DeleteGap,
        SequenceElement::Size(_) => CostKind::DeleteSize,
    }
}

/// The counter a substitution of `a` by `b` adds to.
pub open spec fn substitute_kind(a: SequenceElement, b: SequenceElement) -> CostKind {
    match (a, b) {
        (SequenceElement::Gap(_), SequenceElement::Gap(_)) => CostKind::SubstituteGapGap,
        (SequenceElement::Gap(_), SequenceElement::Size(_)) => CostKind::SubstituteGapSize,
        (SequenceElement::Size(_), SequenceElement::Gap(_)) => CostKind::SubstituteSizeGap,
        (SequenceElement::Size(_), SequenceElement::Size(_)) => CostKind::SubstituteSizeSize,
    }
}

/// The counter a swap of `a` and `b` adds to.
pub open spec fn swap_kind(a: SequenceElement, b: SequenceElement) -> CostKind {
    match (a, b) {
        (SequenceElement::Gap(_), SequenceElement::Gap(_)) => CostKind::SwapGapGap,
        (SequenceElement::Gap(_), SequenceElement::Size(_)) => CostKind::SwapGapSize,
        (SequenceElement::Size(_), SequenceElement::Gap(_)) => CostKind::SwapSizeGap,
        (SequenceElement::Size(_), SequenceElement::Size(_)) => CostKind::SwapSizeSize,
    }
}

/// `m` with the count for `k` increased by one (a missing count counts as zero).
pub open spec fn bump(m: Map<(u16, u16), usize>, k: (u16, u16)) -> Map<(u16, u16), usize> {
    m.insert(k, (if m.contains_key(k) { m[k] + 1 } else { 1 }) as usize)
}

/// The pair of gaps, smaller first, when both elements are gaps.
pub open spec fn gap_pair(a: SequenceElement, b: SequenceElement) -> Option<(u16, u16)> {
    match (a, b) {
        (SequenceElement::Gap(g1), SequenceElement::Gap(g2)) => Some(
            if g1 <= g2 {
                (g1, g2)
            } else {
                (g2, g1)
            },
        ),
        _ => None,
    }
}

fn kind_of_insert(e: SequenceElement) -> (r: CostKind)
    ensures
        r == insert_kind(e),
{
    match e {
        SequenceElement::Gap(_) => CostKind::InsertGap,
        SequenceElement::Size(_) => CostKind::InsertSize,
    }
}

fn kind_of_delete(e: SequenceElement) -> (r: CostKind)
    ensures
        r == delete_kind(e),
{
    match e {
        SequenceElement::Gap(_) => CostKind::DeleteGap,
        SequenceElement::Size(_) => CostKind::DeleteSize,
    }
}

fn kind_of_substitute(a: SequenceElement, b: SequenceElement) -> (r: CostKind)
    ensures
        r == substitute_kind(a, b),
{
    match (a, b) {
        (SequenceElement::Gap(_), SequenceElement::Gap(_)) => CostKind::SubstituteGapGap,
        (SequenceElement::Gap(_), SequenceElement::Size(_)) => CostKind::SubstituteGapSize,
        (SequenceElement::Size(_), SequenceElement::Gap(_)) => CostKind::SubstituteSizeGap,
        (SequenceElement::Size(_), SequenceElement::Size(_)) => CostKind::SubstituteSizeSize,
    }
}

fn kind_of_swap(a: SequenceElement, b: SequenceElement) -> (r: CostKind)
    ensures
        r == swap_kind(a, b),
{
    match (a, b) {
        (SequenceElement::Gap(_), SequenceElement::Gap(_)) => CostKind::SwapGapGap,
        (SequenceElement::Gap(_), SequenceElement::Size(_)) => CostKind::SwapGapSize,
        (SequenceElement::Size(_), SequenceElement::Gap(_)) => CostKind::SwapSizeGap,
        (SequenceElement::Size(_), SequenceElement::Size(_)) => CostKind::SwapSizeSize,
    }
}

/// The name under which the count of the gap pair `k` is reported: `gap(a)_to_gap(b)`.
pub open spec fn gap_entry_name(k: (u16, u16)) -> Seq<char> {
    "gap("@ + decimal(k.0 as nat) + ")_to_gap("@ + decimal(k.1 as nat) + ")"@
}

/// Different gap pairs have different entry names.
proof fn lemma_gap_entry_name_injective(a: (u16, u16), b: (u16, u16))
    requires
        gap_entry_name(a) == gap_entry_name(b),
    ensures
        a == b,
{
    reveal_strlit("gap(");
    reveal_strlit(")_to_gap(");
    reveal_strlit(")");
    let (a0, a1, b0, b1) = (decimal(a.0 as nat), decimal(a.1 as nat), decimal(b.0 as nat), decimal(b.1 as nat));
    lemma_decimal_nonempty(a.0 as nat);
    lemma_decimal_nonempty(a.1 as nat);
    lemma_decimal_nonempty(b.0 as nat);
    lemma_decimal_nonempty(b.1 as nat);
    let x = gap_entry_name(a);
    let y = gap_entry_name(b);
    assert(x =~= "gap("@ + a0 + ")_to_gap("@ + a1 + ")"@);
    assert(y =~= "gap("@ + b0 + ")_to_gap("@ + b1 + ")"@);
    let (la, lb): (int, int) = (a0.len() as int, b0.len() as int);
    assert(x[4 + la] == ')');
    assert(y[4 + lb] == ')');
    if a0.len() < b0.len() {
        assert(y[4 + la] == b0[la]);
        assert(is_digit(b0[la]));
        assert(false);
    }
    if b0.len() < a0.len() {
        assert(x[4 + lb] == a0[lb]);
        assert(is_digit(a0[lb]));
        assert(false);
    }
    assert(a0 =~= x.subrange(4, 4 + la));
    assert(b0 =~= y.subrange(4, 4 + lb));
    assert(a1 =~= x.subrange(13 + la, x.len() - 1));
    assert(b1 =~= y.subrange(13 + lb, y.len() - 1));
    lemma_decimal_value(a.0 as nat);
    lemma_decimal_value(a.1 as nat);
    lemma_decimal_value(b.0 as nat);
    lemma_decimal_value(b.1 as nat);
}

/// Whether no name occurs twice among `entries`.
pub open spec fn names_distinct(entries: Seq<(Seq<char>, usize)>) -> bool {
    forall|i: int, j: int| 0 <= i < j < entries.len() ==> #[trigger] entries[i].0 != #[trigger] entries[j].0
}

/// The entries as (name, count) pairs of character sequences and numbers.
pub open spec fn entries_view(entries: Seq<(String, usize)>) -> Seq<(Seq<char>, usize)> {
    entries.map_values(|e: (String, usize)| (e.0@, e.1))
}

/// Pairs of gaps are ordered as the map of gap pairs needs them to be.
proof fn lemma_gap_keys_ordered()
    ensures
        obeys_cmp::<(u16, u16)>(),
{
}

/// Whether `e` is the entry of one of the gap pairs of `gaps`.
pub open spec fn is_gap_entry(gaps: Map<(u16, u16), usize>, e: (Seq<char>, usize)) -> bool {
    exists|k: (u16, u16)| #[trigger] gaps.contains_key(k) && e == (gap_entry_name(k), gaps[k])
}

/// The first entries, listed in the order of `v`, name and count each gap pair of `gaps`.
proof fn lemma_gap_entries(
    gaps: Map<(u16, u16), usize>,
    v: Seq<(&(u16, u16), &usize)>,
    entries: Seq<(Seq<char>, usize)>,
)
    requires
        v.len() == gaps.dom().len(),
        forall|k: (u16, u16)| #[trigger] gaps.contains_key(k) ==> v.contains((&k, &gaps[k])),
        entries.len() >= v.len(),
        forall|i: int|
            0 <= i < v.len() ==> gaps.contains_key(*v[i].0) && gaps[*v[i].0] == *v[i].1
                && #[trigger] entries[i] == (gap_entry_name(*v[i].0), *v[i].1),
    ensures
        forall|i: int| 0 <= i < v.len() ==> is_gap_entry(gaps, #[trigger] entries[i]),
        forall|k: (u16, u16)|
            #[trigger] gaps.contains_key(k) ==> entries.take(v.len() as int).contains(
                (gap_entry_name(k), gaps[k]),
            ),
{
    assert forall|i: int| 0 <= i < v.len() implies is_gap_entry(gaps, #[trigger] entries[i]) by {
        assert(entries[i] == (gap_entry_name(*v[i].0), *v[i].1));
        assert(gaps.contains_key(*v[i].0));
    }
    assert forall|k: (u16, u16)| #[trigger] gaps.contains_key(k) implies entries.take(
        v.len() as int,
    ).contains((gap_entry_name(k), gaps[k])) by {
        assert(v.contains((&k, &gaps[k])));
        let i = choose|i: int| 0 <= i < v.len() && v[i] == (&k, &gaps[k]);
        assert(entries[i] == (gap_entry_name(k), gaps[k]));
        assert(entries.take(v.len() as int)[i] == entries[i]);
    }
}

/// How the cost of a distance splits across the kinds of edit operations.
#[derive(Debug)]
pub struct CostTracker {
    pub insert_gap: usize,
    pub insert_size: usize,
    pub delete_gap: usize,
    pub delete_size: usize,
    pub substitute_gap_gap: usize,
    pub substitute_gap_size: usize,
    pub substitute_size_gap: usize,
    pub substitute_size_size: usize,
    pub swap_gap_gap: usize,
    pub swap_gap_size: usize,
    pub swap_size_gap: usize,
    pub swap_size_size: usize,
    pub is_abort: bool,
    /// How often a gap was substituted by another, keyed by the smaller and the larger gap.
    pub from_gap_to_gap: BTreeMap<(u16, u16), usize>,
    /// The cost reached so far.
    pub current_cost: usize,
}

impl CostTracker {
    /// The counter of kind `k`.
    pub open spec fn counter(&self, k: CostKind) -> usize {
        match k {
            CostKind::InsertGap => self.insert_gap,
            CostKind::InsertSize => self.insert_size,
            CostKind::DeleteGap => self.delete_gap,
            CostKind::DeleteSize => self.delete_size,
            CostKind::SubstituteGapGap => self.substitute_gap_gap,
            CostKind::SubstituteGapSize => self.substitute_gap_size,
            CostKind::SubstituteSizeGap => self.substitute_size_gap,
            CostKind::SubstituteSizeSize => self.substitute_size_size,
            CostKind::SwapGapGap => self.swap_gap_gap,
            CostKind::SwapGapSize => self.swap_gap_size,
            CostKind::SwapSizeGap => self.swap_size_gap,
            CostKind::SwapSizeSize => self.swap_size_size,
        }
    }

    /// The sum of all counters.
    pub open spec fn total(&self) -> int {
        self.insert_gap + self.insert_size + self.delete_gap + self.delete_size
            + self.substitute_gap_gap + self.substitute_gap_size + self.substitute_size_gap
            + self.substitute_size_size + self.swap_gap_gap + self.swap_gap_size
            + self.swap_size_gap + self.swap_size_size
    }

    /// The cost reached so far.
    pub open spec fn cost(&self) -> nat {
        self.current_cost as nat
    }

    /// The counters add up to the cost reached so far, and no gap pair was counted more often
    /// than gaps were substituted by gaps.
    pub open spec fn consistent(&self) -> bool {
        &&& self.total() == self.cost()
        &&& forall|k: (u16, u16)|
            #[trigger] self.from_gap_to_gap@.contains_key(k) ==> self.from_gap_to_gap@[k]
                <= self.substitute_gap_gap
    }

    /// `next` is this tracker moved to cost `cost`, the difference going to the counter `kind`.
    pub open spec fn moved_to(&self, next: &Self, cost: int, kind: CostKind) -> bool {
        &&& forall|k: CostKind|
            #[trigger] next.counter(k) == self.counter(k) + (if k == kind {
                cost - self.cost()
            } else {
                0
            })
        &&& next.is_abort == self.is_abort
        &&& next.cost() == cost
    }

    /// The named counters in the order they are reported, with the abort flag as 0 or 1.
    pub open spec fn fixed_entries(&self) -> Seq<(Seq<char>, usize)> {
        seq![
            ("insert_gap"@, self.insert_gap),
            ("insert_size"@, self.insert_size),
            ("delete_gap"@, self.delete_gap),
            ("delete_size"@, self.delete_size),
            ("substitute_gap_gap"@, self.substitute_gap_gap),
            ("substitute_gap_size"@, self.substitute_gap_size),
            ("substitute_size_gap"@, self.substitute_size_gap),
            ("substitute_size_size"@, self.substitute_size_size),
            ("swap_gap_gap"@, self.swap_gap_gap),
            ("swap_gap_size"@, self.swap_gap_size),
            ("swap_size_gap"@, self.swap_size_gap),
            ("swap_size_size"@, self.swap_size_size),
            ("is_abort"@, if self.is_abort { 1usize } else { 0usize }),
        ]
    }

    /// The names of the named counters differ from each other and none starts with `g`.
    proof fn lemma_fixed_names(&self)
        ensures
            forall|a: int, b: int|
                0 <= a < b < 13 ==> #[trigger] self.fixed_entries()[a].0 != #[trigger] self.fixed_entries()[b].0,
            forall|a: int| 0 <= a < 13 ==> (#[trigger] self.fixed_entries()[a]).0.len() > 0 && self.fixed_entries()[a].0[0] != 'g',
    {
        reveal_strlit("insert_gap");
        reveal_strlit("insert_size");
        reveal_strlit("delete_gap");
        reveal_strlit("delete_size");
        reveal_strlit("substitute_gap_gap");
        reveal_strlit("substitute_gap_size");
        reveal_strlit("substitute_size_gap");
        reveal_strlit("substitute_size_size");
        reveal_strlit("swap_gap_gap");
        reveal_strlit("swap_gap_size");
        reveal_strlit("swap_size_gap");
        reveal_strlit("swap_size_size");
        reveal_strlit("is_abort");
        let f = self.fixed_entries();
        let names = seq![
            "insert_gap"@, "insert_size"@, "delete_gap"@, "delete_size"@, "substitute_gap_gap"@,
            "substitute_gap_size"@, "substitute_size_gap"@, "substitute_size_size"@,
            "swap_gap_gap"@, "swap_gap_size"@, "swap_size_gap"@, "swap_size_size"@, "is_abort"@,
        ];
        assert forall|a: int| 0 <= a < 13 implies #[trigger] f[a].0 == names[a] by {}
        assert forall|a: int, b: int| 0 <= a < b < 13 implies #[trigger] names[a] != #[trigger] names[b] by {
            assert(names[a].len() != names[b].len() || names[a][0] != names[b][0] || names[a][5]
                != names[b][5] || names[a][11] != names[b][11]);
        }
    }

    /// All counters zero, nothing aborted, no gap pairs.
    pub open spec fn is_empty_tracker(&self) -> bool {
        &&& forall|k: CostKind| #[trigger] self.counter(k) == 0
        &&& !self.is_abort
        &&& self.from_gap_to_gap@ == Map::<(u16, u16), usize>::empty()
        &&& self.cost() == 0
    }

    /// A tracker at cost zero with all counters zero.
    pub fn new() -> (r: Self)
        ensures
            r.is_empty_tracker(),
            r.consistent(),
    {
        CostTracker {
            insert_gap: 0,
            insert_size: 0,
            delete_gap: 0,
            delete_size: 0,
            substitute_gap_gap: 0,
            substitute_gap_size: 0,
            substitute_size_gap: 0,
            substitute_size_size: 0,
            swap_gap_gap: 0,
            swap_gap_size: 0,
            swap_size_gap: 0,
            swap_size_size: 0,
            is_abort: false,
            from_gap_to_gap: BTreeMap::new(),
            current_cost: 0,
        }
    }

    /// All counts as (name, count) entries, no name twice: first one `gap(a)_to_gap(b)` entry
    /// for each counted gap pair, then the named counters in a fixed order. The entries are
    /// not ordered by name.
    pub fn as_btreemap(&self) -> (r: Vec<(String, usize)>)
        ensures
            names_distinct(entries_view(r@)),
            ({
                let entries = entries_view(r@);
                let gaps = self.from_gap_to_gap@;
                let n = gaps.dom().len();
                &&& entries.len() == n + 13
                &&& entries.subrange(n as int, n as int + 13) == self.fixed_entries()
                &&& forall|i: int| 0 <= i < n ==> is_gap_entry(gaps, #[trigger] entries[i])
                &&& forall|k: (u16, u16)|
                    #[trigger] gaps.contains_key(k) ==> entries.take(n as int).contains(
                        (gap_entry_name(k), gaps[k]),
                    )
            }),
    {
        let mut out: Vec<(String, usize)> = Vec::new();
        proof {
            reveal_strlit("gap(");
            reveal_strlit(")_to_gap(");
            reveal_strlit(")");
        }
        proof {
            lemma_gap_keys_ordered();
        }
        let gap_iter = self.from_gap_to_gap.iter();
        let ghost v = gap_iter.remaining();
        assert(v.no_duplicates());
        for kv in it: gap_iter
            invariant
                it.seq() == v,
                out@.len() == it.index(),
                forall|i: int|
                    0 <= i < it.index() ==> #[trigger] entries_view(out@)[i] == (
                        gap_entry_name(*v[i].0),
                        *v[i].1,
                    ),
        {
            proof {
                reveal_strlit("gap(");
                reveal_strlit(")_to_gap(");
                reveal_strlit(")");
            }
            let (k, c) = kv;
            let mut name = String::new();
            name.append("gap(");
            push_decimal(&mut name, k.0 as u64);
            name.append(")_to_gap(");
            push_decimal(&mut name, k.1 as u64);
            name.append(")");
            let ghost before = entries_view(out@);
            out.push((name, *c));
            assert(entries_view(out@) =~= before.push((gap_entry_name(*k), *c)));
        }
        let n = out.len();
        let ghost gap_entries = entries_view(out@);
        proof {
            lemma_gap_keys_ordered();
            assert(v.len() == self.from_gap_to_gap@.dom().len());
        }
        out.push(("insert_gap".to_owned(), self.insert_gap));
        out.push(("insert_size".to_owned(), self.insert_size));
        out.push(("delete_gap".to_owned(), self.delete_gap));
        out.push(("delete_size".to_owned(), self.delete_size));
        out.push(("substitute_gap_gap".to_owned(), self.substitute_gap_gap));
        out.push(("substitute_gap_size".to_owned(), self.substitute_gap_size));
        out.push(("substitute_size_gap".to_owned(), self.substitute_size_gap));
        out.push(("substitute_size_size".to_owned(), self.substitute_size_size));
        out.push(("swap_gap_gap".to_owned(), self.swap_gap_gap));
        out.push(("swap_gap_size".to_owned(), self.swap_gap_size));
        out.push(("swap_size_gap".to_owned(), self.swap_size_gap));
        out.push(("swap_size_size".to_owned(), self.swap_size_size));
        out.push(("is_abort".to_owned(), if self.is_abort { 1 } else { 0 }));
        assert(entries_view(out@).subrange(n as int, n + 13) =~= self.fixed_entries());
        proof {
            let gaps = self.from_gap_to_gap@;
            assert forall|i: int| 0 <= i < v.len() implies gaps.contains_key(*v[i].0) && gaps[*v[i].0]
                == *v[i].1 && #[trigger] entries_view(out@)[i] == (gap_entry_name(*v[i].0), *v[i].1) by {
                assert(entries_view(out@)[i] == gap_entries[i]);
            }
            lemma_gap_entries(gaps, v, entries_view(out@));
            let e = entries_view(out@);
            self.lemma_fixed_names();
            reveal_strlit("gap(");
            assert forall|i: int, j: int| 0 <= i < j < e.len() implies #[trigger] e[i].0 != #[trigger] e[j].0 by {
                if j < n {
                    if e[i].0 == e[j].0 {
                        lemma_gap_entry_name_injective(*v[i].0, *v[j].0);
                        assert(v[i] == v[j]);
                    }
                } else if i < n {
                    assert(e[j] == self.fixed_entries()[j - n]);
                    assert(e[i].0 =~= "gap("@ + (decimal(v[i].0.0 as nat) + ")_to_gap("@ + decimal(v[i].0.1 as nat) + ")"@));
                    assert(e[i].0[0] == 'g');
                } else {
                    assert(e[i] == self.fixed_entries()[i - n]);
                    assert(e[j] == self.fixed_entries()[j - n]);
                }
            }
        }
        out
    }

    /// The cost reached so far.
    pub fn current_cost(&self) -> (r: usize)
        ensures
            r == self.cost(),
    {
        self.current_cost
    }

    /// A copy of this tracker with the gap pairs replaced by `gaps` and the abort flag by
    /// `is_abort`.
    fn rebuilt(&self, gaps: BTreeMap<(u16, u16), usize>, is_abort: bool) -> (r: Self)
        ensures
            forall|k: CostKind| #[trigger] r.counter(k) == self.counter(k),
            r.total() == self.total(),
            r.substitute_gap_gap == self.substitute_gap_gap,
            r.is_abort == is_abort,
            r.from_gap_to_gap@ == gaps@,
            r.cost() == self.cost(),
    {
        CostTracker {
            insert_gap: self.insert_gap,
            insert_size: self.insert_size,
            delete_gap: self.delete_gap,
            delete_size: self.delete_size,
            substitute_gap_gap: self.substitute_gap_gap,
            substitute_gap_size: self.substitute_gap_size,
            substitute_size_gap: self.substitute_size_gap,
            substitute_size_size: self.substitute_size_size,
            swap_gap_gap: self.swap_gap_gap,
            swap_gap_size: self.swap_gap_size,
            swap_size_gap: self.swap_size_gap,
            swap_size_size: self.swap_size_size,
            is_abort: is_abort,
            from_gap_to_gap: gaps,
            current_cost: self.current_cost,
        }
    }

    /// A copy of this tracker at cost `cost`, where the counter `kind` took the difference
    /// between `cost` and the cost reached so far.
    pub fn update(&self, cost: usize, kind: CostKind) -> (r: Self)
        requires
            self.consistent(),
            self.cost() <= cost,
        ensures
            self.moved_to(&r, cost as int, kind),
            r.from_gap_to_gap@ == self.from_gap_to_gap@,
            r.consistent(),
    {
        let diff = cost - self.current_cost;
        let gaps = self.from_gap_to_gap.clone();
        let res = CostTracker {
            insert_gap: self.insert_gap + if kind == CostKind::InsertGap { diff } else { 0 },
            insert_size: self.insert_size + if kind == CostKind::InsertSize { diff } else { 0 },
            delete_gap: self.delete_gap + if kind == CostKind::DeleteGap { diff } else { 0 },
            delete_size: self.delete_size + if kind == CostKind::DeleteSize { diff } else { 0 },
            substitute_gap_gap: self.substitute_gap_gap + if kind == CostKind::SubstituteGapGap {
                diff
            } else {
                0
            },
            substitute_gap_size: self.substitute_gap_size + if kind
                == CostKind::SubstituteGapSize {
                diff
            } else {
                0
            },
            substitute_size_gap: self.substitute_size_gap + if kind
                == CostKind::SubstituteSizeGap {
                diff
            } else {
                0
            },
            substitute_size_size: self.substitute_size_size + if kind
                == CostKind::SubstituteSizeSize {
                diff
            } else {
                0
            },
            swap_gap_gap: self.swap_gap_gap + if kind == CostKind::SwapGapGap { diff } else { 0 },
            swap_gap_size: self.swap_gap_size + if kind == CostKind::SwapGapSize {
                diff
            } else {
                0
            },
            swap_size_gap: self.swap_size_gap + if kind == CostKind::SwapSizeGap {
                diff
            } else {
                0
            },
            swap_size_size: self.swap_size_size + if kind == CostKind::SwapSizeSize {
                diff
            } else {
                0
            },
            is_abort: self.is_abort,
            from_gap_to_gap: gaps,
            current_cost: cost,
        };
        assert forall|k: CostKind|
            #[trigger] res.counter(k) == self.counter(k) + (if k == kind {
                cost - self.cost()
            } else {
                0
            }) by {
            match k {
                CostKind::InsertGap => {},
                _ => {},
            }
        }
        res
    }
}

impl DistanceCostInfo for CostTracker {
    open spec fn cost_so_far(&self) -> nat {
        self.cost()
    }

    open spec fn well_formed(&self) -> bool {
        self.consistent()
    }

    fn insert(&self, cost: usize, elem1: SequenceElement) -> (r: Self)
        ensures
            self.moved_to(&r, cost as int, insert_kind(elem1)),
            r.from_gap_to_gap@ == self.from_gap_to_gap@,
    {
        self.update(cost, kind_of_insert(elem1))
    }

    fn delete(&self, cost: usize, elem1: SequenceElement) -> (r: Self)
        ensures
            self.moved_to(&r, cost as int, delete_kind(elem1)),
            r.from_gap_to_gap@ == self.from_gap_to_gap@,
    {
        self.update(cost, kind_of_delete(elem1))
    }

    /// When the cost grows by substituting a gap by a gap, that pair of gaps is counted too.
    fn substitute(&self, cost: usize, elem1: SequenceElement, elem2: SequenceElement) -> (r: Self)
        ensures
            self.moved_to(&r, cost as int, substitute_kind(elem1, elem2)),
            r.from_gap_to_gap@ == (if self.cost() != cost && gap_pair(elem1, elem2) is Some {
                bump(self.from_gap_to_gap@, gap_pair(elem1, elem2).unwrap())
            } else {
                self.from_gap_to_gap@
            }),
    {
        let mut res = self.update(cost, kind_of_substitute(elem1, elem2));
        if self.current_cost != cost {
            if let (SequenceElement::Gap(g1), SequenceElement::Gap(g2)) = (elem1, elem2) {
                let key = if g1 <= g2 {
                    (g1, g2)
                } else {
                    (g2, g1)
                };
                assert(res.counter(CostKind::SubstituteGapGap) == self.counter(
                    CostKind::SubstituteGapGap,
                ) + (cost - self.cost()));
                let count = match res.from_gap_to_gap.get(&key) {
                    Some(v) => *v + 1,
                    None => 1,
                };
                let mut gaps = res.from_gap_to_gap.clone();
                gaps.insert(key, count);
                res = res.rebuilt(gaps, res.is_abort);
                assert forall|k: (u16, u16)| #[trigger]
                    res.from_gap_to_gap@.contains_key(k) implies res.from_gap_to_gap@[k]
                    <= res.substitute_gap_gap by {
                    if k != key {
                        assert(self.from_gap_to_gap@.contains_key(k));
                    }
                }
            }
        }
        res
    }

    fn swap(&self, cost: usize, elem1: SequenceElement, elem2: SequenceElement) -> (r: Self)
        ensures
            self.moved_to(&r, cost as int, swap_kind(elem1, elem2)),
            r.from_gap_to_gap@ == self.from_gap_to_gap@,
    {
        self.update(cost, kind_of_swap(elem1, elem2))
    }

    fn abort(&self) -> (r: Self)
        ensures
            forall|k: CostKind| #[trigger] r.counter(k) == self.counter(k),
            r.is_abort,
            r.from_gap_to_gap@ == self.from_gap_to_gap@,
            r.cost() == self.cost(),
    {
        self.rebuilt(self.from_gap_to_gap.clone(), true)
    }
}

} // verus!
