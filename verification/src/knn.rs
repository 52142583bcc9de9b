//! Classification by nearest neighbours: collecting the labels of the nearest sequences and
//! rating how well they match the true label.

use crate::minmax::{Max, Min};
use crate::sequence_element::SequenceElement;
use crate::sequence::{LabelledSequence, LabelledSequences, Sequence, sequence_view, sequences_view};
use crate::stable_sort::{lemma_stable_sorted_map, stable_sort_by_key, stable_sorted};
use crate::crawl_index::{
    lemma_seq_lt_irreflexive, lemma_seq_lt_total, lemma_seq_lt_transitive, str_lt, strings_view,
};
use crate::surt::seq_lt;
use vstd::prelude::*;

verus! {

/// How well the labels of a classification match the true label, from worst to best. Each
/// quality above [`ClassificationResultQuality::Contains`] implies the ones below it.
#[derive(Clone, Copy, Debug, PartialEq, Eq, Structural, Hash)]
pub enum ClassificationResultQuality {
    /// There are no labels.
    NoResult,
    /// None of the labels is the true label.
    Wrong,
    /// One of the labels is the true label.
    Contains,
    /// The true label is a plurality; where several labels are, it has the smallest minimal
    /// distance of them.
    PluralityThenMinDist,
    /// The true label is the only plurality.
    Plurality,
    /// At least half of the labels are the true label.
    Majority,
    /// All labels are the true label.
    Exact,
}

impl ClassificationResultQuality {
    /// All qualities, from worst to best.
    pub fn iter_variants() -> (r: Vec<ClassificationResultQuality>)
        ensures
            r@ == seq![
                ClassificationResultQuality::NoResult,
                ClassificationResultQuality::Wrong,
                ClassificationResultQuality::Contains,
                ClassificationResultQuality::PluralityThenMinDist,
                ClassificationResultQuality::Plurality,
                ClassificationResultQuality::Majority,
                ClassificationResultQuality::Exact,
            ],
    {
        let mut v: Vec<ClassificationResultQuality> = Vec::new();
        v.push(ClassificationResultQuality::NoResult);
        v.push(ClassificationResultQuality::Wrong);
        v.push(ClassificationResultQuality::Contains);
        v.push(ClassificationResultQuality::PluralityThenMinDist);
        v.push(ClassificationResultQuality::Plurality);
        v.push(ClassificationResultQuality::Majority);
        v.push(ClassificationResultQuality::Exact);
        v
    }

    /// The name of the quality.
    pub fn to_string(&self) -> (r: String)
        ensures
            r@ == quality_name(*self),
    {
        match self {
            ClassificationResultQuality::NoResult => "NoResult".to_owned(),
            ClassificationResultQuality::Wrong => "Wrong".to_owned(),
            ClassificationResultQuality::Contains => "Contains".to_owned(),
            ClassificationResultQuality::PluralityThenMinDist => "PluralityThenMinDist".to_owned(),
            ClassificationResultQuality::Plurality => "Plurality".to_owned(),
            ClassificationResultQuality::Majority => "Majority".to_owned(),
            ClassificationResultQuality::Exact => "Exact".to_owned(),
        }
    }
}

/// The name of a quality.
pub open spec fn quality_name(q: ClassificationResultQuality) -> Seq<char> {
    match q {
        ClassificationResultQuality::NoResult => "NoResult"@,
        ClassificationResultQuality::Wrong => "Wrong"@,
        ClassificationResultQuality::Contains => "Contains"@,
        ClassificationResultQuality::PluralityThenMinDist => "PluralityThenMinDist"@,
        ClassificationResultQuality::Plurality => "Plurality"@,
        ClassificationResultQuality::Majority => "Majority"@,
        ClassificationResultQuality::Exact => "Exact"@,
    }
}

/// A neighbour: its label and its distance.
#[derive(Clone, Debug)]
pub struct ClassifierData {
    pub label: String,
    pub distance: usize,
}

/// One label among the neighbours: how often it occurs, and its smallest and largest distance.
#[derive(Clone, Debug)]
pub struct LabelOption {
    name: String,
    count: u8,
    distance_min: Min<usize>,
    distance_max: Max<usize>,
}

/// A [`LabelOption`] as values: name, count, smallest and largest distance.
pub type LabelOptionView = (Seq<char>, u8, usize, usize);

impl LabelOption {
    pub closed spec fn view_of(&self) -> LabelOptionView {
        (self.name@, self.count, self.distance_min@.unwrap(), self.distance_max@.unwrap())
    }

    pub closed spec fn wf(&self) -> bool {
        self.distance_min@ is Some && self.distance_max@ is Some
    }

    /// Whether the option is the label `name`.
    pub fn is(&self, name: &str) -> (r: bool)
        ensures
            r == (self.view_of().0 == name@),
    {
        str_eq(self.name.as_str(), name)
    }

    /// Counts one more neighbour with this label at `distance`.
    fn update(&mut self, distance: usize)
        requires
            old(self).wf(),
            old(self).view_of().1 < 255,
        ensures
            final(self).wf(),
            final(self).view_of() == add_to_option(old(self).view_of(), distance),
    {
        self.count = self.count + 1;
        self.distance_min.update(distance);
        self.distance_max.update(distance);
    }
}

/// The option `o` with one more neighbour at distance `d`.
pub open spec fn add_to_option(o: LabelOptionView, d: usize) -> LabelOptionView {
    (o.0, (o.1 + 1) as u8, if d < o.2 { d } else { o.2 }, if d > o.3 { d } else { o.3 })
}

/// Whether two strings hold the same characters.
fn str_eq(a: &str, b: &str) -> (r: bool)
    ensures
        r == (a@ == b@),
{
    let n = a.unicode_len();
    if n != b.unicode_len() {
        return false;
    }
    let mut i: usize = 0;
    while i < n
        invariant
            i <= n,
            n == a@.len(),
            n == b@.len(),
            forall|j: int| 0 <= j < i ==> a@[j] == b@[j],
        decreases n - i,
    {
        if a.get_char(i) != b.get_char(i) {
            return false;
        }
        i = i + 1;
    }
    assert(a@ =~= b@);
    true
}

/// The position of the option named `name` among `opts`, if any.
pub open spec fn option_index(opts: Seq<LabelOptionView>, name: Seq<char>) -> Option<int>
    decreases opts.len(),
{
    if opts.len() == 0 {
        None
    } else {
        match option_index(opts.drop_last(), name) {
            Some(i) => Some(i),
            None => if opts.last().0 == name {
                Some(opts.len() - 1)
            } else {
                None
            },
        }
    }
}

/// The options of the labels of `data`, in the order the labels first occur.
pub open spec fn spec_options(data: Seq<(Seq<char>, usize)>) -> Seq<LabelOptionView>
    decreases data.len(),
{
    if data.len() == 0 {
        Seq::empty()
    } else {
        let opts = spec_options(data.drop_last());
        let (label, d) = data.last();
        match option_index(opts, label) {
            Some(i) => opts.update(i, add_to_option(opts[i], d)),
            None => opts.push((label, 1u8, d, d)),
        }
    }
}

/// The neighbours as values.
pub open spec fn data_view(data: Seq<ClassifierData>) -> Seq<(Seq<char>, usize)> {
    data.map_values(|c: ClassifierData| (c.label@, c.distance))
}

/// How often `label` occurs among `data`.
pub open spec fn label_count(data: Seq<(Seq<char>, usize)>, label: Seq<char>) -> nat
    decreases data.len(),
{
    if data.len() == 0 {
        0
    } else {
        label_count(data.drop_last(), label) + if data.last().0 == label {
            1nat
        } else {
            0nat
        }
    }
}

/// Whether no label occurs more than 255 times.
pub open spec fn label_counts_fit(data: Seq<(Seq<char>, usize)>) -> bool {
    forall|i: int| 0 <= i < data.len() ==> label_count(data, (#[trigger] data[i]).0) <= 255
}

/// The sum of the counts of the options.
pub open spec fn total_count(opts: Seq<LabelOptionView>) -> int
    decreases opts.len(),
{
    if opts.len() == 0 {
        0
    } else {
        total_count(opts.drop_last()) + opts.last().1
    }
}

/// Whether the options are exactly the label `label`.
pub open spec fn spec_is(opts: Seq<LabelOptionView>, label: Seq<char>) -> bool {
    opts.len() == 1 && opts[0].0 == label
}

/// Whether another option than the one at `f` occurs at least as often.
pub open spec fn has_rival_count(opts: Seq<LabelOptionView>, f: int) -> bool {
    exists|x: int| 0 <= x < opts.len() && #[trigger] opts[x] != opts[f] && opts[x].1 >= opts[f].1
}

/// Whether another option than the one at `f` occurs more often, or as often with a minimal
/// distance that is not larger.
pub open spec fn has_rival_min_dist(opts: Seq<LabelOptionView>, f: int) -> bool {
    exists|x: int|
        0 <= x < opts.len() && #[trigger] opts[x] != opts[f] && (opts[x].1 > opts[f].1 || (
        opts[x].1 == opts[f].1 && opts[x].2 <= opts[f].2))
}

/// The quality of the options against the true label `label`.
pub open spec fn spec_quality(opts: Seq<LabelOptionView>, label: Seq<char>) -> ClassificationResultQuality {
    if opts.len() == 0 {
        ClassificationResultQuality::NoResult
    } else if spec_is(opts, label) {
        ClassificationResultQuality::Exact
    } else {
        match option_index(opts, label) {
            None => ClassificationResultQuality::Wrong,
            Some(f) => if opts[f].1 * 2 > total_count(opts) {
                ClassificationResultQuality::Majority
            } else if !has_rival_count(opts, f) {
                ClassificationResultQuality::Plurality
            } else if !has_rival_min_dist(opts, f) {
                ClassificationResultQuality::PluralityThenMinDist
            } else {
                ClassificationResultQuality::Contains
            },
        }
    }
}

/// Whether the counts the rating adds and doubles fit a byte.
pub open spec fn quality_computable(opts: Seq<LabelOptionView>, label: Seq<char>) -> bool {
    opts.len() > 0 && !spec_is(opts, label) && option_index(opts, label) is Some ==> {
        &&& total_count(opts) <= 255
        &&& opts[option_index(opts, label).unwrap()].1 * 2 <= 255
    }
}

/// The labels of the nearest neighbours of a sequence.
#[derive(Clone, Debug)]
pub struct ClassificationResult {
    options: Vec<LabelOption>,
}

impl ClassificationResult {
    /// The options as values, in the order their labels first occurred.
    pub closed spec fn options(&self) -> Seq<LabelOptionView> {
        self.options@.map_values(|o: LabelOption| o.view_of())
    }

    pub closed spec fn wf(&self) -> bool {
        forall|i: int| 0 <= i < self.options@.len() ==> (#[trigger] self.options@[i]).wf()
    }

    /// A result without labels.
    pub fn new() -> (r: Self)
        ensures
            r.wf(),
            r.options() == Seq::<LabelOptionView>::empty(),
    {
        let r = ClassificationResult { options: Vec::new() };
        assert(r.options() =~= Seq::<LabelOptionView>::empty());
        r
    }

    /// Groups the neighbours by label.
    pub fn from_classifier_data(data: &[ClassifierData]) -> (r: Self)
        requires
            label_counts_fit(data_view(data@)),
        ensures
            r.wf(),
            r.options() == spec_options(data_view(data@)),
    {
        let mut result = ClassificationResult { options: Vec::new() };
        let mut i: usize = 0;
        assert(result.options() =~= spec_options(data_view(data@.take(0))));
        while i < data.len()
            invariant
                i <= data@.len(),
                label_counts_fit(data_view(data@)),
                result.wf(),
                result.options() == spec_options(data_view(data@.take(i as int))),
            decreases data@.len() - i,
        {
            let entry = &data[i];
            let ghost pre = data_view(data@.take(i as int));
            let ghost opts = result.options();
            assert(data_view(data@.take(i + 1)).drop_last() =~= pre);
            assert(data_view(data@.take(i + 1)).last() == (entry.label@, entry.distance));
            let mut j: usize = 0;
            while j < result.options.len() && !result.options[j].is(entry.label.as_str())
                invariant
                    j <= result.options@.len(),
                    opts == result.options(),
                    forall|x: int| 0 <= x < j ==> opts[x].0 != entry.label@,
                decreases result.options@.len() - j,
            {
                assert(opts[j as int] == result.options@[j as int].view_of());
                j = j + 1;
            }
            let found: Option<usize> = if j < result.options.len() {
                assert(opts[j as int] == result.options@[j as int].view_of());
                proof {
                    lemma_option_index_first(opts, entry.label@, j as int);
                }
                Some(j)
            } else {
                None
            };
            match found {
                Some(f) => {
                    proof {
                        let all = data_view(data@);
                        assert(all[i as int] == (entry.label@, entry.distance));
                        assert(all.take(i as int) =~= pre);
                        lemma_label_count_prefix(all, i as int);
                        lemma_count_in_options(pre, entry.label@, f as int);
                        assert(opts[f as int] == result.options@[f as int].view_of());
                    }
                    let mut opt = result.options.remove(f);
                    opt.update(entry.distance);
                    result.options.insert(f, opt);
                    assert(result.options() =~= opts.update(f as int, add_to_option(opts[f as int], entry.distance)));
                },
                None => {
                    proof {
                        lemma_option_index_none(opts, entry.label@);
                    }
                    let new_opt = LabelOption {
                        name: entry.label.clone(),
                        count: 1,
                        distance_min: Min::with_initial(entry.distance),
                        distance_max: Max::with_initial(entry.distance),
                    };
                    result.options.push(new_opt);
                    assert(result.options() =~= opts.push((entry.label@, 1u8, entry.distance, entry.distance)));
                },
            }
            i = i + 1;
        }
        assert(data@.take(data@.len() as int) =~= data@);
        result
    }

    /// Whether the only label is `real_label`.
    pub fn is(&self, real_label: &str) -> (r: bool)
        ensures
            r == spec_is(self.options(), real_label@),
    {
        self.options.len() == 1 && self.options[0].is(real_label)
    }

    /// Rates the labels against the true label `real_label`.
    pub fn determine_quality(&self, real_label: &str) -> (r: ClassificationResultQuality)
        requires
            self.wf(),
            quality_computable(self.options(), real_label@),
        ensures
            r == spec_quality(self.options(), real_label@),
    {
        let ghost opts = self.options();
        if self.options.len() == 0 {
            return ClassificationResultQuality::NoResult;
        }
        if self.is(real_label) {
            return ClassificationResultQuality::Exact;
        }
        let n = self.options.len();
        let mut f: usize = 0;
        while f < n && !self.options[f].is(real_label)
            invariant
                f <= n,
                n == opts.len(),
                opts == self.options(),
                forall|x: int| 0 <= x < f ==> opts[x].0 != real_label@,
            decreases n - f,
        {
            assert(opts[f as int] == self.options@[f as int].view_of());
            f = f + 1;
        }
        if f == n {
            proof {
                lemma_option_index_none(opts, real_label@);
            }
            return ClassificationResultQuality::Wrong;
        }
        assert(opts[f as int] == self.options@[f as int].view_of());
        proof {
            lemma_option_index_first(opts, real_label@, f as int);
        }
        let corr = &self.options[f];
        // The total number of neighbours.
        let mut total: u8 = 0;
        let mut i: usize = 0;
        while i < n
            invariant
                i <= n,
                n == opts.len(),
                opts == self.options(),
                total_count(opts) <= 255,
                total == total_count(opts.take(i as int)),
            decreases n - i,
        {
            assert(opts.take(i + 1).drop_last() =~= opts.take(i as int));
            assert(opts[i as int] == self.options@[i as int].view_of());
            proof {
                lemma_total_count_take(opts, i + 1);
            }
            total = total + self.options[i].count;
            i = i + 1;
        }
        assert(opts.take(n as int) =~= opts);
        if corr.count * 2 > total {
            return ClassificationResultQuality::Majority;
        }
        let corr_min = corr.distance_min.get_min().unwrap();
        let mut rival_count = false;
        let mut rival_min_dist = false;
        let mut j: usize = 0;
        while j < n
            invariant
                j <= n,
                n == opts.len(),
                opts == self.options(),
                self.wf(),
                f < n,
                corr == self.options@[f as int],
                corr_min == opts[f as int].2,
                rival_count == exists|x: int|
                    0 <= x < j && #[trigger] opts[x] != opts[f as int] && opts[x].1 >= opts[f as int].1,
                rival_min_dist == exists|x: int|
                    0 <= x < j && #[trigger] opts[x] != opts[f as int] && (opts[x].1 > opts[f as int].1
                        || (opts[x].1 == opts[f as int].1 && opts[x].2 <= opts[f as int].2)),
            decreases n - j,
        {
            let other = &self.options[j];
            assert(opts[j as int] == other.view_of());
            assert(other.wf());
            let other_min = other.distance_min.get_min().unwrap();
            let other_max = other.distance_max.get_max().unwrap();
            let corr_max = corr.distance_max.get_max().unwrap();
            let different = !(str_eq(other.name.as_str(), corr.name.as_str()) && other.count
                == corr.count && other_min == corr_min && other_max == corr_max);
            if different && other.count >= corr.count {
                rival_count = true;
            }
            if different && (other.count > corr.count || (other.count == corr.count && other_min
                <= corr_min)) {
                rival_min_dist = true;
            }
            j = j + 1;
        }
        if !rival_count {
            return ClassificationResultQuality::Plurality;
        }
        if !rival_min_dist {
            return ClassificationResultQuality::PluralityThenMinDist;
        }
        ClassificationResultQuality::Contains
    }
}

proof fn lemma_total_count_take(opts: Seq<LabelOptionView>, k: int)
    requires
        0 <= k <= opts.len(),
    ensures
        total_count(opts.take(k)) <= total_count(opts),
    decreases opts.len(),
{
    if k < opts.len() {
        assert(opts.drop_last().take(k) =~= opts.take(k));
        lemma_total_count_take(opts.drop_last(), k);
    } else {
        assert(opts.take(k) =~= opts);
    }
}

proof fn lemma_option_index_first(opts: Seq<LabelOptionView>, name: Seq<char>, j: int)
    requires
        0 <= j < opts.len(),
        opts[j].0 == name,
        forall|x: int| 0 <= x < j ==> opts[x].0 != name,
    ensures
        option_index(opts, name) == Some(j),
    decreases opts.len(),
{
    if j < opts.len() - 1 {
        lemma_option_index_first(opts.drop_last(), name, j);
    } else {
        lemma_option_index_absent(opts.drop_last(), name);
    }
}

proof fn lemma_option_index_absent(opts: Seq<LabelOptionView>, name: Seq<char>)
    requires
        forall|x: int| 0 <= x < opts.len() ==> opts[x].0 != name,
    ensures
        option_index(opts, name) is None,
    decreases opts.len(),
{
    if opts.len() > 0 {
        lemma_option_index_absent(opts.drop_last(), name);
    }
}

proof fn lemma_option_index_none(opts: Seq<LabelOptionView>, name: Seq<char>)
    requires
        forall|x: int| 0 <= x < opts.len() ==> opts[x].0 != name,
    ensures
        option_index(opts, name) is None,
{
    lemma_option_index_absent(opts, name);
}

/// `option_index` finds the first option with the name.
proof fn lemma_option_index_spec(opts: Seq<LabelOptionView>, name: Seq<char>)
    ensures
        match option_index(opts, name) {
            Some(i) => 0 <= i < opts.len() && opts[i].0 == name && forall|x: int|
                0 <= x < i ==> opts[x].0 != name,
            None => forall|x: int| 0 <= x < opts.len() ==> opts[x].0 != name,
        },
    decreases opts.len(),
{
    if opts.len() > 0 {
        lemma_option_index_spec(opts.drop_last(), name);
        match option_index(opts.drop_last(), name) {
            Some(i) => {
                assert forall|x: int| 0 <= x < i implies opts[x].0 != name by {
                    assert(opts[x] == opts.drop_last()[x]);
                }
            },
            None => {
                assert forall|x: int| 0 <= x < opts.len() - 1 implies opts[x].0 != name by {
                    assert(opts[x] == opts.drop_last()[x]);
                }
            },
        }
    }
}

/// Options with the same names at the same positions have the same index for a name.
proof fn lemma_option_index_names(a: Seq<LabelOptionView>, b: Seq<LabelOptionView>, name: Seq<char>)
    requires
        a.len() == b.len(),
        forall|x: int| 0 <= x < a.len() ==> (#[trigger] a[x]).0 == b[x].0,
    ensures
        option_index(a, name) == option_index(b, name),
    decreases a.len(),
{
    if a.len() > 0 {
        assert forall|x: int| 0 <= x < a.len() - 1 implies (#[trigger] a.drop_last()[x]).0
            == b.drop_last()[x].0 by {
            assert(a.drop_last()[x] == a[x]);
            assert(b.drop_last()[x] == b[x]);
        }
        lemma_option_index_names(a.drop_last(), b.drop_last(), name);
    }
}

/// The option of a label counts how often the label occurs (as long as that fits a byte);
/// a label without an option does not occur.
proof fn lemma_options_count(data: Seq<(Seq<char>, usize)>, name: Seq<char>)
    ensures
        match option_index(spec_options(data), name) {
            None => label_count(data, name) == 0,
            Some(f) => 0 <= f < spec_options(data).len() && spec_options(data)[f].0 == name && (
            label_count(data, name) <= 255 ==> spec_options(data)[f].1 == label_count(data, name)),
        },
    decreases data.len(),
{
    lemma_option_index_spec(spec_options(data), name);
    if data.len() > 0 {
        let prev = data.drop_last();
        let opts = spec_options(prev);
        let (label, d) = data.last();
        lemma_options_count(prev, name);
        lemma_option_index_spec(opts, name);
        lemma_option_index_spec(opts, label);
        match option_index(opts, label) {
            Some(g) => {
                let next = opts.update(g, add_to_option(opts[g], d));
                assert forall|x: int| 0 <= x < opts.len() implies (#[trigger] opts[x]).0
                    == next[x].0 by {}
                lemma_option_index_names(opts, next, name);
                if label == name {
                    assert(label_count(data, name) == label_count(prev, name) + 1);
                }
            },
            None => {
                let next = opts.push((label, 1u8, d, d));
                assert(next.drop_last() =~= opts);
                if label == name {
                    assert(option_index(next, name) == Some(opts.len() as int));
                }
            },
        }
    }
}

/// How often a label occurs in a prefix is at most how often it occurs in the whole.
proof fn lemma_label_count_take(data: Seq<(Seq<char>, usize)>, k: int, name: Seq<char>)
    requires
        0 <= k <= data.len(),
    ensures
        label_count(data.take(k), name) <= label_count(data, name),
    decreases data.len(),
{
    if k < data.len() {
        assert(data.drop_last().take(k) =~= data.take(k));
        lemma_label_count_take(data.drop_last(), k, name);
    } else {
        assert(data.take(k) =~= data);
    }
}

proof fn lemma_count_in_options(data: Seq<(Seq<char>, usize)>, name: Seq<char>, f: int)
    requires
        option_index(spec_options(data), name) == Some(f),
        label_count(data, name) <= 255,
    ensures
        0 <= f < spec_options(data).len(),
        spec_options(data)[f].1 == label_count(data, name),
        spec_options(data)[f].0 == name,
{
    lemma_options_count(data, name);
}

proof fn lemma_label_count_prefix(data: Seq<(Seq<char>, usize)>, i: int)
    requires
        0 <= i < data.len(),
    ensures
        label_count(data.take(i), data[i].0) < label_count(data, data[i].0),
{
    let name = data[i].0;
    assert(data.take(i + 1).drop_last() =~= data.take(i));
    lemma_label_count_take(data, i + 1, name);
}

// ---------------------------------------------------------------------------------------------
// The nearest neighbours

/// The distance a neighbour is ordered by.
pub open spec fn classifier_distance() -> spec_fn(ClassifierData) -> i128 {
    |c: ClassifierData| c.distance as i128
}

/// The `n` nearest of the neighbours `s`: ordered by distance, and among equal distances in
/// the order they come.
pub open spec fn n_smallest(s: Seq<ClassifierData>, n: usize) -> Seq<ClassifierData> {
    let sorted = stable_sorted(s, classifier_distance());
    if n < sorted.len() {
        sorted.take(n as int)
    } else {
        sorted
    }
}

/// The neighbours among `s` that are there.
pub open spec fn present(s: Seq<Option<ClassifierData>>) -> Seq<ClassifierData>
    decreases s.len(),
{
    if s.len() == 0 {
        Seq::empty()
    } else if s.last() is Some {
        present(s.drop_last()).push(s.last().unwrap())
    } else {
        present(s.drop_last())
    }
}

/// Keeps the `n` nearest neighbours (see [`n_smallest`]).
pub fn take_smallest(data: Vec<ClassifierData>, n: usize) -> (r: Vec<ClassifierData>)
    requires
        n > 0 || data@.len() == 0,
    ensures
        r@ == n_smallest(data@, n),
{
    let mut keys: Vec<i128> = Vec::new();
    let mut i: usize = 0;
    while i < data.len()
        invariant
            i <= data@.len(),
            keys@ == data@.take(i as int).map_values(classifier_distance()),
        decreases data@.len() - i,
    {
        keys.push(data[i].distance as i128);
        i = i + 1;
        assert(keys@ =~= data@.take(i as int).map_values(classifier_distance()));
    }
    assert(data@.take(data@.len() as int) =~= data@);
    let mut sorted = stable_sort_by_key(data, keys);
    let ghost full = sorted@;
    while sorted.len() > n
        invariant
            sorted@.len() >= n || sorted@ == full,
            sorted@ == full.take(sorted@.len() as int),
            sorted@.len() <= full.len(),
        decreases sorted@.len(),
    {
        sorted.pop();
        assert(sorted@ =~= full.take(sorted@.len() as int));
    }
    proof {
        if n < full.len() {
            assert(sorted@.len() == n);
        } else {
            assert(full.take(full.len() as int) =~= full);
        }
    }
    sorted
}

/// Keeps the `n` nearest of the neighbours that are there.
pub fn take_smallest_opt(data: Vec<Option<ClassifierData>>, n: usize) -> (r: Vec<ClassifierData>)
    requires
        n > 0 || data@.len() == 0,
    ensures
        r@ == n_smallest(present(data@), n),
{
    let ghost all = data@;
    let mut data = data;
    let mut rest: Vec<Option<ClassifierData>> = Vec::new();
    while data.len() > 0
        invariant
            data@.len() + rest@.len() == all.len(),
            data@ == all.take(data@.len() as int),
            forall|i: int| 0 <= i < rest@.len() ==> #[trigger] rest@[i] == all[all.len() - 1 - i],
        decreases data@.len(),
    {
        let d = data.pop().unwrap();
        rest.push(d);
        assert(data@ =~= all.take(data@.len() as int));
    }
    let mut found: Vec<ClassifierData> = Vec::new();
    let mut k: usize = 0;
    let total = rest.len();
    assert(all.take(0) =~= Seq::<Option<ClassifierData>>::empty());
    while rest.len() > 0
        invariant
            rest@.len() + k == total,
            total == all.len(),
            forall|i: int| 0 <= i < rest@.len() ==> #[trigger] rest@[i] == all[all.len() - 1 - i],
            found@ == present(all.take(k as int)),
        decreases rest@.len(),
    {
        let d = rest.pop().unwrap();
        assert(d == all[k as int]);
        assert(all.take(k + 1).drop_last() =~= all.take(k as int));
        if let Some(c) = d {
            found.push(c);
        }
        k = k + 1;
    }
    assert(all.take(total as int) =~= all);
    proof {
        lemma_present_len(all);
    }
    take_smallest(found, n)
}

proof fn lemma_present_len(s: Seq<Option<ClassifierData>>)
    ensures
        present(s).len() <= s.len(),
    decreases s.len(),
{
    if s.len() > 0 {
        lemma_present_len(s.drop_last());
    }
}

// ---------------------------------------------------------------------------------------------
// Cross validation

/// The training sequences of `l` in fold `fold`: all but the one at `fold` modulo their number.
pub open spec fn training_view(l: LabelledSequences, fold: u8) -> Seq<(Seq<SequenceElement>, Seq<char>)> {
    sequences_view(l.sequences@).remove((fold as int) % (l.sequences@.len() as int))
}

/// The test entries of fold `fold`: for each domain with more than `fold` sequences, its
/// sequence at `fold`, with its domain and label.
pub open spec fn test_entries(data: Seq<LabelledSequences>, fold: u8) -> Seq<(Seq<char>, Seq<char>, (Seq<SequenceElement>, Seq<char>))>
    decreases data.len(),
{
    if data.len() == 0 {
        Seq::empty()
    } else {
        let l = data.last();
        let prev = test_entries(data.drop_last(), fold);
        if (fold as int) < l.sequences@.len() {
            prev.push((l.true_domain@, l.mapped_domain@, sequence_view(l.sequences@[fold as int])))
        } else {
            prev
        }
    }
}

/// The test entries as values.
pub open spec fn labelled_view(v: Seq<LabelledSequence>) -> Seq<(Seq<char>, Seq<char>, (Seq<SequenceElement>, Seq<char>))> {
    v.map_values(|t: LabelledSequence| (t.true_domain@, t.mapped_domain@, sequence_view(t.sequence)))
}

fn copy_sequences(v: &Vec<Sequence>) -> (r: Vec<Sequence>)
    ensures
        sequences_view(r@) == sequences_view(v@),
{
    let mut out: Vec<Sequence> = Vec::new();
    let mut i: usize = 0;
    while i < v.len()
        invariant
            i <= v@.len(),
            out@.len() == i,
            sequences_view(out@) == sequences_view(v@.take(i as int)),
        decreases v@.len() - i,
    {
        let ghost before = out@;
        let d = v[i].duplicate();
        out.push(d);
        assert forall|j: int| 0 <= j <= i implies #[trigger] sequences_view(out@)[j] == sequences_view(
            v@.take(i + 1),
        )[j] by {
            if j < i {
                assert(sequences_view(before)[j] == sequences_view(v@.take(i as int))[j]);
                assert(out@[j] == before[j]);
            }
        }
        i = i + 1;
        assert(sequences_view(out@) =~= sequences_view(v@.take(i as int)));
    }
    assert(v@.take(v@.len() as int) =~= v@);
    out
}

/// Splits the data for fold `fold` of a cross validation: each domain keeps all but one of
/// its sequences for training; the one left out is a test sequence if the domain has more
/// than `fold` sequences.
pub fn split_training_test_data(data: &[LabelledSequences], fold: u8) -> (r: (
    Vec<LabelledSequences>,
    Vec<LabelledSequence>,
))
    requires
        forall|i: int| 0 <= i < data@.len() ==> (#[trigger] data@[i]).sequences@.len() > 0,
    ensures
        r.0@.len() == data@.len(),
        forall|i: int|
            0 <= i < data@.len() ==> (#[trigger] r.0@[i]).true_domain@ == data@[i].true_domain@
                && r.0@[i].mapped_domain@ == data@[i].mapped_domain@ && sequences_view(
                r.0@[i].sequences@,
            ) == training_view(data@[i], fold),
        labelled_view(r.1@) == test_entries(data@, fold),
{
    let mut training: Vec<LabelledSequences> = Vec::new();
    let mut test: Vec<LabelledSequence> = Vec::new();
    let mut i: usize = 0;
    while i < data.len()
        invariant
            i <= data@.len(),
            forall|j: int| 0 <= j < data@.len() ==> (#[trigger] data@[j]).sequences@.len() > 0,
            training@.len() == i,
            forall|j: int|
                0 <= j < i ==> (#[trigger] training@[j]).true_domain@ == data@[j].true_domain@
                    && training@[j].mapped_domain@ == data@[j].mapped_domain@ && sequences_view(
                    training@[j].sequences@,
                ) == training_view(data@[j], fold),
            labelled_view(test@) == test_entries(data@.take(i as int), fold),
        decreases data@.len() - i,
    {
        let entry = &data[i];
        assert(entry.sequences@.len() > 0);
        let mut trainings = copy_sequences(&entry.sequences);
        let index = (fold as usize) % entry.sequences.len();
        assert(trainings@.len() == sequences_view(trainings@).len());
        assert(sequences_view(trainings@)[index as int] == sequence_view(trainings@[index as int]));
        assert(sequences_view(entry.sequences@)[index as int] == sequence_view(entry.sequences@[index as int]));
        let ghost copied = trainings@;
        let test_sequence = trainings.remove(index);
        assert(test_sequence == copied[index as int]);
        assert(sequences_view(trainings@) =~= sequences_view(copied).remove(index as int));
        assert(sequences_view(trainings@) =~= training_view(*entry, fold));
        let ghost old_test = labelled_view(test@);
        training.push(
            LabelledSequences {
                true_domain: entry.true_domain.clone(),
                mapped_domain: entry.mapped_domain.clone(),
                sequences: trainings,
            },
        );
        assert(data@.take(i + 1).drop_last() =~= data@.take(i as int));
        assert(data@.take(i + 1).last() == *entry);
        if (fold as usize) < entry.sequences.len() {
            proof {
                vstd::arithmetic::div_mod::lemma_small_mod(fold as nat, entry.sequences@.len() as nat);
            }
            assert(index == fold as usize);
            assert(sequences_view(copied)[index as int] == sequences_view(entry.sequences@)[index as int]);
            assert(sequence_view(test_sequence) == sequence_view(entry.sequences@[fold as int]));
            test.push(
                LabelledSequence {
                    true_domain: entry.true_domain.clone(),
                    mapped_domain: entry.mapped_domain.clone(),
                    sequence: test_sequence,
                },
            );
            assert(labelled_view(test@) =~= old_test.push(
                (entry.true_domain@, entry.mapped_domain@, sequence_view(entry.sequences@[fold as int])),
            ));
        }
        i = i + 1;
    }
    assert(data@.take(data@.len() as int) =~= data@);
    (training, test)
}


/// The labelled distances, in the order of the labels.
pub open spec fn labelled_distances(labels: Seq<Seq<char>>, row: Seq<usize>) -> Seq<(Seq<char>, usize)> {
    Seq::new(labels.len(), |j: int| (labels[j], row[j]))
}

/// The distance of a labelled distance, as a sort key.
pub open spec fn pair_distance() -> spec_fn((Seq<char>, usize)) -> i128 {
    |p: (Seq<char>, usize)| p.1 as i128
}

/// The `n` smallest labelled distances: ordered by distance, and among equal distances in
/// their order.
pub open spec fn n_smallest_pairs(s: Seq<(Seq<char>, usize)>, n: usize) -> Seq<(Seq<char>, usize)> {
    let sorted = stable_sorted(s, pair_distance());
    if n < sorted.len() {
        sorted.take(n as int)
    } else {
        sorted
    }
}

/// The k-nearest-neighbour classification of one test sequence, given the labels of the training
/// sequences and the distances of the test sequence to each of them.
pub open spec fn spec_knn_row(labels: Seq<Seq<char>>, row: Seq<usize>, k: u8) -> Seq<LabelOptionView> {
    spec_options(n_smallest_pairs(labelled_distances(labels, row), k as usize))
}

proof fn lemma_label_count_le_len(data: Seq<(Seq<char>, usize)>, label: Seq<char>)
    ensures
        label_count(data, label) <= data.len(),
    decreases data.len(),
{
    if data.len() > 0 {
        lemma_label_count_le_len(data.drop_last(), label);
    }
}

proof fn lemma_n_smallest_view(d: Seq<ClassifierData>, n: usize)
    ensures
        data_view(n_smallest(d, n)) == n_smallest_pairs(data_view(d), n),
        n_smallest(d, n).len() <= n,
{
    let f = |c: ClassifierData| (c.label@, c.distance);
    lemma_stable_sorted_map(d, classifier_distance(), f, pair_distance());
    assert(d.map_values(f) =~= data_view(d));
    let sorted = stable_sorted(d, classifier_distance());
    assert(sorted.map_values(f) == stable_sorted(data_view(d), pair_distance()));
    assert(sorted.len() == d.len());
    if n < sorted.len() {
        assert(sorted.take(n as int).map_values(f) =~= sorted.map_values(f).take(n as int));
    }
}

/// k-nearest-neighbour classification: for each test sequence, the `k` training sequences with
/// the smallest distances vote with their labels (see [`ClassificationResult::from_classifier_data`]).
///
/// `labels[j]` is the label of training sequence `j`, and `distances[i][j]` the distance of
/// test sequence `i` to it.
pub fn knn(labels: &[String], distances: &[Vec<usize>], k: u8) -> (r: Vec<ClassificationResult>)
    requires
        k > 0,
        forall|i: int| 0 <= i < distances@.len() ==> (#[trigger] distances@[i])@.len() == labels@.len(),
    ensures
        r@.len() == distances@.len(),
        forall|i: int|
            0 <= i < r@.len() ==> (#[trigger] r@[i]).wf() && r@[i].options() == spec_knn_row(
                labels@.map_values(|l: String| l@),
                distances@[i]@,
                k,
            ),
{
    let ghost lv = labels@.map_values(|l: String| l@);
    let mut out: Vec<ClassificationResult> = Vec::new();
    let mut i: usize = 0;
    while i < distances.len()
        invariant
            i <= distances@.len(),
            k > 0,
            lv == labels@.map_values(|l: String| l@),
            forall|x: int| 0 <= x < distances@.len() ==> (#[trigger] distances@[x])@.len() == labels@.len(),
            out@.len() == i,
            forall|x: int|
                0 <= x < i ==> (#[trigger] out@[x]).wf() && out@[x].options() == spec_knn_row(lv, distances@[x]@, k),
        decreases distances@.len() - i,
    {
        let row = &distances[i];
        let mut data: Vec<ClassifierData> = Vec::new();
        let mut j: usize = 0;
        while j < labels.len()
            invariant
                j <= labels@.len(),
                row@.len() == labels@.len(),
                lv == labels@.map_values(|l: String| l@),
                data_view(data@) == labelled_distances(lv, row@).take(j as int),
            decreases labels@.len() - j,
        {
            let label = labels[j].clone();
            assert(lv[j as int] == labels@[j as int]@);
            let ghost before = data@;
            data.push(ClassifierData { label, distance: row[j] });
            assert(data_view(data@) =~= data_view(before).push((lv[j as int], row@[j as int])));
            assert(labelled_distances(lv, row@).take(j + 1) =~= labelled_distances(lv, row@).take(
                j as int,
            ).push((lv[j as int], row@[j as int])));
            j = j + 1;
        }
        assert(labelled_distances(lv, row@).take(labels@.len() as int) =~= labelled_distances(lv, row@));
        let smallest = take_smallest(data, k as usize);
        proof {
            lemma_n_smallest_view(data@, k as usize);
            let dv = data_view(smallest@);
            assert forall|x: int| 0 <= x < dv.len() implies label_count(dv, (#[trigger] dv[x]).0) <= 255 by {
                lemma_label_count_le_len(dv, dv[x].0);
            }
        }
        let result = ClassificationResult::from_classifier_data(smallest.as_slice());
        out.push(result);
        i = i + 1;
    }
    out
}

/// The neighbour candidates of one test sequence under thresholds: training sequence `j` with
/// its distance if that is below `thresholds[j]`, else nothing.
pub open spec fn threshold_candidates(labels: Seq<String>, row: Seq<usize>, thresholds: Seq<usize>) -> Seq<Option<ClassifierData>> {
    Seq::new(
        labels.len(),
        |j: int|
            if row[j] < thresholds[j] {
                Some(ClassifierData { label: labels[j], distance: row[j] })
            } else {
                None
            },
    )
}

/// k-nearest-neighbour classification in which a training sequence only counts as a neighbour
/// when its distance is below the threshold of the pair.
///
/// `distances[i][j]` is the distance of test sequence `i` to training sequence `j`, and
/// `thresholds[i][j]` the threshold of that pair.
pub fn knn_with_threshold(labels: &[String], distances: &[Vec<usize>], thresholds: &[Vec<usize>], k: u8) -> (r: Vec<
    ClassificationResult,
>)
    requires
        k > 0,
        thresholds@.len() == distances@.len(),
        forall|i: int| 0 <= i < distances@.len() ==> (#[trigger] distances@[i])@.len() == labels@.len(),
        forall|i: int| 0 <= i < thresholds@.len() ==> (#[trigger] thresholds@[i])@.len() == labels@.len(),
    ensures
        r@.len() == distances@.len(),
        forall|i: int|
            0 <= i < r@.len() ==> (#[trigger] r@[i]).wf() && r@[i].options() == spec_options(
                data_view(n_smallest(present(threshold_candidates(labels@, distances@[i]@, thresholds@[i]@)), k as usize)),
            ),
{
    let mut out: Vec<ClassificationResult> = Vec::new();
    let mut i: usize = 0;
    while i < distances.len()
        invariant
            i <= distances@.len(),
            k > 0,
            thresholds@.len() == distances@.len(),
            forall|x: int| 0 <= x < distances@.len() ==> (#[trigger] distances@[x])@.len() == labels@.len(),
            forall|x: int| 0 <= x < thresholds@.len() ==> (#[trigger] thresholds@[x])@.len() == labels@.len(),
            out@.len() == i,
            forall|x: int|
                0 <= x < i ==> (#[trigger] out@[x]).wf() && out@[x].options() == spec_options(
                    data_view(n_smallest(present(threshold_candidates(labels@, distances@[x]@, thresholds@[x]@)), k as usize)),
                ),
        decreases distances@.len() - i,
    {
        let row = &distances[i];
        let limits = &thresholds[i];
        let ghost cands = threshold_candidates(labels@, row@, limits@);
        let mut data: Vec<Option<ClassifierData>> = Vec::new();
        let mut j: usize = 0;
        while j < labels.len()
            invariant
                j <= labels@.len(),
                row@.len() == labels@.len(),
                limits@.len() == labels@.len(),
                cands == threshold_candidates(labels@, row@, limits@),
                data@ == cands.take(j as int),
            decreases labels@.len() - j,
        {
            if row[j] < limits[j] {
                data.push(Some(ClassifierData { label: labels[j].clone(), distance: row[j] }));
            } else {
                data.push(None);
            }
            j = j + 1;
            assert(data@ =~= cands.take(j as int));
        }
        assert(cands.take(labels@.len() as int) =~= cands);
        let smallest = take_smallest_opt(data, k as usize);
        proof {
            lemma_n_smallest_view(present(cands), k as usize);
            let dv = data_view(smallest@);
            assert forall|x: int| 0 <= x < dv.len() implies label_count(dv, (#[trigger] dv[x]).0) <= 255 by {
                lemma_label_count_le_len(dv, dv[x].0);
            }
        }
        let result = ClassificationResult::from_classifier_data(smallest.as_slice());
        out.push(result);
        i = i + 1;
    }
    out
}

/// The largest count among the options.
pub open spec fn max_count(opts: Seq<LabelOptionView>) -> int
    decreases opts.len(),
{
    if opts.len() == 0 {
        0
    } else {
        let m = max_count(opts.drop_last());
        if opts.last().1 > m {
            opts.last().1 as int
        } else {
            m
        }
    }
}

/// The labels among the first `n` options that have the count `count`.
pub open spec fn labels_with_count(opts: Seq<LabelOptionView>, count: int, n: int) -> Set<Seq<char>> {
    Set::new(|l: Seq<char>| exists|i: int| 0 <= i < n && opts[i].0 == l && opts[i].1 == count)
}

/// The labels that occur most often among the options.
pub open spec fn vote_winners(opts: Seq<LabelOptionView>) -> Set<Seq<char>> {
    labels_with_count(opts, max_count(opts), opts.len() as int)
}

/// Whether the labels are in strictly ascending order.
pub open spec fn strictly_sorted(s: Seq<Seq<char>>) -> bool {
    forall|i: int, j: int| 0 <= i < j < s.len() ==> seq_lt(s[i], s[j])
}

/// The labels joined with ` - `.
pub open spec fn joined(parts: Seq<Seq<char>>) -> Seq<char>
    decreases parts.len(),
{
    if parts.len() == 0 {
        Seq::empty()
    } else if parts.len() == 1 {
        parts[0]
    } else {
        joined(parts.drop_last()) + seq![' ', '-', ' '] + parts.last()
    }
}

/// The answer of the label vote for one test sequence, given its `k` nearest neighbours: for
/// `k = 1` the label of the nearest; otherwise the labels that occur most often among them, in
/// ascending order, joined with ` - `.
pub open spec fn vote_text(nearest: Seq<(Seq<char>, usize)>, k: u8, text: Seq<char>) -> bool {
    if k == 1 {
        text == nearest[0].0
    } else {
        exists|parts: Seq<Seq<char>>|
            strictly_sorted(parts) && parts.to_set() == vote_winners(spec_options(nearest))
                && text == joined(parts)
    }
}

proof fn lemma_max_count_take(opts: Seq<LabelOptionView>, i: int)
    requires
        0 <= i < opts.len(),
    ensures
        max_count(opts.take(i + 1)) == if opts[i].1 > max_count(opts.take(i)) {
            opts[i].1 as int
        } else {
            max_count(opts.take(i))
        },
{
    assert(opts.take(i + 1).drop_last() =~= opts.take(i));
}

/// Adds `name` to the strictly ascending labels `sorted`, unless it is there.
fn insert_label(sorted: &mut Vec<String>, name: String)
    requires
        strictly_sorted(strings_view(old(sorted)@)),
    ensures
        strictly_sorted(strings_view(final(sorted)@)),
        strings_view(final(sorted)@).to_set() == strings_view(old(sorted)@).to_set().insert(name@),
{
    let ghost v = strings_view(sorted@);
    let mut p: usize = 0;
    while p < sorted.len() && str_lt(sorted[p].as_str(), name.as_str())
        invariant
            p <= sorted@.len(),
            v == strings_view(sorted@),
            strictly_sorted(v),
            forall|i: int| 0 <= i < p ==> seq_lt(#[trigger] v[i], name@),
        decreases sorted@.len() - p,
    {
        p = p + 1;
    }
    if p < sorted.len() && str_eq(sorted[p].as_str(), name.as_str()) {
        assert(v[p as int] == name@);
        assert(v.to_set().insert(name@) =~= v.to_set());
        return;
    }
    proof {
        if p < v.len() {
            lemma_seq_lt_total(v[p as int], name@);
            assert(seq_lt(name@, v[p as int]));
        }
    }
    sorted.insert(p, name);
    let ghost w = strings_view(sorted@);
    assert(w =~= v.insert(p as int, name@));
    assert forall|i: int, j: int| 0 <= i < j < w.len() implies seq_lt(w[i], w[j]) by {
        if j < p {
        } else if j == p {
            assert(w[i] == v[i]);
        } else if i == p {
            assert(w[j] == v[j - 1]);
            if j - 1 > p {
                lemma_seq_lt_transitive(name@, v[p as int], v[j - 1]);
            }
        } else if i < p {
            assert(w[i] == v[i] && w[j] == v[j - 1]);
            if i < j - 1 {
            }
        } else {
            assert(w[i] == v[i - 1] && w[j] == v[j - 1]);
        }
    }
    assert forall|x: Seq<char>| w.to_set().contains(x) <==> v.to_set().insert(name@).contains(x) by {
        if w.contains(x) {
            let i = choose|i: int| 0 <= i < w.len() && w[i] == x;
            if i < p {
                assert(v[i] == x);
            } else if i > p {
                assert(v[i - 1] == x);
            }
        }
        if v.contains(x) {
            let i = choose|i: int| 0 <= i < v.len() && v[i] == x;
            if i < p {
                assert(w[i] == x);
            } else {
                assert(w[i + 1] == x);
            }
        }
        if x == name@ {
            assert(w[p as int] == x);
        }
    }
    assert(w.to_set() =~= v.to_set().insert(name@));
}

/// The labels joined with ` - ` (see [`joined`]).
fn join_labels(parts: &Vec<String>) -> (r: String)
    ensures
        r@ == joined(strings_view(parts@)),
{
    let ghost v = strings_view(parts@);
    let mut out = String::new();
    let mut i: usize = 0;
    proof {
        reveal_strlit(" - ");
        assert(" - "@ =~= seq![' ', '-', ' ']);
    }
    while i < parts.len()
        invariant
            i <= parts@.len(),
            v == strings_view(parts@),
            out@ == joined(v.take(i as int)),
            " - "@ == seq![' ', '-', ' '],
        decreases parts@.len() - i,
    {
        assert(v.take(i + 1).drop_last() =~= v.take(i as int));
        if i > 0 {
            out.append(" - ");
        } else {
            assert(joined(v.take(0)) =~= Seq::<char>::empty());
        }
        out.append(parts[i].as_str());
        i = i + 1;
    }
    assert(v.take(v.len() as int) =~= v);
    out
}

impl ClassificationResult {
    /// The answer of the label vote (see [`vote_text`]) for `k > 1`.
    fn vote(&self) -> (r: String)
        requires
            self.wf(),
        ensures
            exists|parts: Seq<Seq<char>>|
                strictly_sorted(parts) && parts.to_set() == vote_winners(self.options()) && r@
                    == joined(parts),
    {
        let ghost opts = self.options();
        let n = self.options.len();
        let mut best: u8 = 0;
        let mut i: usize = 0;
        while i < n
            invariant
                i <= n,
                n == opts.len(),
                opts == self.options(),
                best == max_count(opts.take(i as int)),
            decreases n - i,
        {
            proof {
                lemma_max_count_take(opts, i as int);
                assert(opts[i as int].1 == self.options@[i as int].count);
            }
            if self.options[i].count > best {
                best = self.options[i].count;
            }
            i = i + 1;
        }
        assert(opts.take(n as int) =~= opts);
        let mut sorted: Vec<String> = Vec::new();
        let mut j: usize = 0;
        while j < n
            invariant
                j <= n,
                n == opts.len(),
                opts == self.options(),
                best == max_count(opts),
                strictly_sorted(strings_view(sorted@)),
                strings_view(sorted@).to_set() == labels_with_count(opts, best as int, j as int),
            decreases n - j,
        {
            let ghost before = strings_view(sorted@);
            assert(opts[j as int] == self.options@[j as int].view_of());
            if self.options[j].count == best {
                insert_label(&mut sorted, self.options[j].name.clone());
                assert(strings_view(sorted@).to_set() =~= labels_with_count(opts, best as int, j + 1));
            } else {
                assert(labels_with_count(opts, best as int, j + 1) =~= labels_with_count(opts, best as int, j as int));
            }
            j = j + 1;
        }
        let r = join_labels(&sorted);
        assert(strictly_sorted(strings_view(sorted@)) && strings_view(sorted@).to_set() == vote_winners(opts)
            && r@ == joined(strings_view(sorted@)));
        r
    }
}

/// The label vote of k-nearest-neighbours, as the Python bindings answer it: for each test
/// sequence the label of the nearest training sequence when `k = 1`, else the labels that occur
/// most often among the `k` nearest, in ascending order, joined with ` - ` (see
/// [`vote_text`]). Among equal distances the training sequences count in their order.
///
/// `labels[j]` is the label of training sequence `j`, and `distances[i][j]` the distance of
/// test sequence `i` to it.
pub fn knn_vote(labels: &[String], distances: &[Vec<usize>], k: u8) -> (r: Vec<String>)
    requires
        k > 0,
        k == 1 && distances@.len() > 0 ==> labels@.len() > 0,
        forall|i: int| 0 <= i < distances@.len() ==> (#[trigger] distances@[i])@.len() == labels@.len(),
    ensures
        r@.len() == distances@.len(),
        forall|i: int|
            0 <= i < r@.len() ==> vote_text(
                n_smallest_pairs(labelled_distances(labels@.map_values(|l: String| l@), distances@[i]@), k as usize),
                k,
                (#[trigger] r@[i])@,
            ),
{
    let ghost lv = labels@.map_values(|l: String| l@);
    let mut out: Vec<String> = Vec::new();
    let mut i: usize = 0;
    while i < distances.len()
        invariant
            i <= distances@.len(),
            k > 0,
            k == 1 && distances@.len() > 0 ==> labels@.len() > 0,
            lv == labels@.map_values(|l: String| l@),
            forall|x: int| 0 <= x < distances@.len() ==> (#[trigger] distances@[x])@.len() == labels@.len(),
            out@.len() == i,
            forall|x: int|
                0 <= x < i ==> vote_text(
                    n_smallest_pairs(labelled_distances(lv, distances@[x]@), k as usize),
                    k,
                    (#[trigger] out@[x])@,
                ),
        decreases distances@.len() - i,
    {
        let row = &distances[i];
        let mut data: Vec<ClassifierData> = Vec::new();
        let mut j: usize = 0;
        while j < labels.len()
            invariant
                j <= labels@.len(),
                row@.len() == labels@.len(),
                lv == labels@.map_values(|l: String| l@),
                data_view(data@) == labelled_distances(lv, row@).take(j as int),
            decreases labels@.len() - j,
        {
            let label = labels[j].clone();
            assert(lv[j as int] == labels@[j as int]@);
            let ghost before = data@;
            data.push(ClassifierData { label, distance: row[j] });
            assert(data_view(data@) =~= data_view(before).push((lv[j as int], row@[j as int])));
            assert(labelled_distances(lv, row@).take(j + 1) =~= labelled_distances(lv, row@).take(
                j as int,
            ).push((lv[j as int], row@[j as int])));
            j = j + 1;
        }
        assert(labelled_distances(lv, row@).take(labels@.len() as int) =~= labelled_distances(lv, row@));
        let ghost full = data@;
        let smallest = take_smallest(data, k as usize);
        let ghost nearest = n_smallest_pairs(labelled_distances(lv, row@), k as usize);
        proof {
            lemma_n_smallest_view(full, k as usize);
            assert(data_view(smallest@) == nearest);
        }
        let text = if k == 1 {
            proof {
                crate::stable_sort::lemma_stable_sorted_map(
                    full,
                    classifier_distance(),
                    |c: ClassifierData| (c.label@, c.distance),
                    pair_distance(),
                );
                assert(smallest@.len() == 1);
                assert(data_view(smallest@)[0] == (smallest@[0].label@, smallest@[0].distance));
            }
            smallest[0].label.clone()
        } else {
            proof {
                let dv = data_view(smallest@);
                assert forall|x: int| 0 <= x < dv.len() implies label_count(dv, (#[trigger] dv[x]).0) <= 255 by {
                    lemma_label_count_le_len(dv, dv[x].0);
                }
            }
            let result = ClassificationResult::from_classifier_data(smallest.as_slice());
            result.vote()
        };
        out.push(text);
        i = i + 1;
    }
    out
}

} // verus!
