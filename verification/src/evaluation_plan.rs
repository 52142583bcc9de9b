//! Preparing the evaluation runs of the classifier: which numbers of neighbours to test, and the
//! test data as labels beside sequences.

use crate::knn::labelled_view;
use crate::sequence::{sequence_view, sequences_view, LabelledSequence, LabelledSequences, Sequence};
use crate::sequence_element::SequenceElement;
use vstd::prelude::*;

verus! {

/// The numbers of neighbours to test: `exact_k` alone if given, else the odd numbers up to `k`.
pub open spec fn spec_ks(k: usize, exact_k: Option<usize>) -> Seq<usize> {
    match exact_k {
        Some(e) => seq![e],
        None => Seq::new(((k as int + 1) / 2) as nat, |i: int| (2 * i + 1) as usize),
    }
}

/// The numbers of neighbours to test (see [`spec_ks`]).
pub fn ks_to_test(k: usize, exact_k: Option<usize>) -> (r: Vec<usize>)
    ensures
        r@ == spec_ks(k, exact_k),
{
    match exact_k {
        Some(e) => {
            let v = vec![e];
            assert(v@ =~= seq![e]);
            v
        },
        None => {
            let n = k / 2 + k % 2;
            let mut out: Vec<usize> = Vec::new();
            let mut i: usize = 0;
            while i < n
                invariant
                    i <= n,
                    n == (k as int + 1) / 2,
                    out@ == Seq::new(i as nat, |j: int| (2 * j + 1) as usize),
                decreases n - i,
            {
                out.push(2 * i + 1);
                i = i + 1;
                assert(out@ =~= Seq::new(i as nat, |j: int| (2 * j + 1) as usize));
            }
            out
        },
    }
}

/// The labels (true domain and label) of the test sequences, and the sequences, in their order.
pub fn split_labels(test: Vec<LabelledSequence>) -> (r: (Vec<(String, String)>, Vec<Sequence>))
    ensures
        r.0@.len() == test@.len(),
        r.1@.len() == test@.len(),
        forall|i: int|
            0 <= i < test@.len() ==> (#[trigger] r.0@[i]).0@ == labelled_view(test@)[i].0 && r.0@[i].1@
                == labelled_view(test@)[i].1 && sequence_view(r.1@[i]) == labelled_view(test@)[i].2,
{
    let ghost all = labelled_view(test@);
    let mut labels: Vec<(String, String)> = Vec::new();
    let mut sequences: Vec<Sequence> = Vec::new();
    let mut rest = test;
    while rest.len() > 0
        invariant
            labels@.len() + rest@.len() == all.len(),
            sequences@.len() == labels@.len(),
            labelled_view(rest@) == all.skip(labels@.len() as int),
            forall|i: int|
                0 <= i < labels@.len() ==> (#[trigger] labels@[i]).0@ == all[i].0 && labels@[i].1@ == all[i].1
                    && sequence_view(sequences@[i]) == all[i].2,
        decreases rest@.len(),
    {
        let ghost k = labels@.len() as int;
        let ghost old_rest = rest@;
        let e = rest.remove(0);
        assert(all.skip(k)[0] == all[k]);
        assert(labelled_view(old_rest)[0] == all[k]);
        assert forall|i: int| 0 <= i < rest@.len() implies #[trigger] labelled_view(rest@)[i] == all.skip(k + 1)[i] by {
            assert(rest@[i] == old_rest[i + 1]);
            assert(labelled_view(old_rest)[i + 1] == all.skip(k)[i + 1]);
        }
        assert(labelled_view(rest@) =~= all.skip(k + 1));
        labels.push((e.true_domain, e.mapped_domain));
        sequences.push(e.sequence);
    }
    (labels, sequences)
}

/// A domain's sequences as values: true domain, label, and the sequences.
pub type DomainView = (Seq<char>, Seq<char>, Seq<(Seq<SequenceElement>, Seq<char>)>);

pub open spec fn domain_view(d: LabelledSequences) -> DomainView {
    (d.true_domain@, d.mapped_domain@, sequences_view(d.sequences@))
}

pub open spec fn domains_view(ds: Seq<LabelledSequences>) -> Seq<DomainView> {
    ds.map_values(|d: LabelledSequences| domain_view(d))
}

/// Every sequence of the domains, in order, with its domain's true domain and label.
pub open spec fn test_items(ds: Seq<DomainView>) -> Seq<(Seq<char>, Seq<char>, (Seq<SequenceElement>, Seq<char>))>
    decreases ds.len(),
{
    if ds.len() == 0 {
        Seq::empty()
    } else {
        let d = ds.last();
        test_items(ds.drop_last()) + d.2.map_values(|s: (Seq<SequenceElement>, Seq<char>)| (d.0, d.1, s))
    }
}

/// The test data of a classification run as labels beside sequences: every sequence of a domain
/// with the domain's true domain and label (see [`test_items`]).
pub fn flatten_test_data(data: Vec<LabelledSequences>) -> (r: (Vec<(String, String)>, Vec<Sequence>))
    ensures
        r.0@.len() == test_items(domains_view(data@)).len(),
        r.1@.len() == r.0@.len(),
        forall|i: int|
            0 <= i < r.0@.len() ==> {
                let item = test_items(domains_view(data@))[i];
                &&& (#[trigger] r.0@[i]).0@ == item.0
                &&& r.0@[i].1@ == item.1
                &&& sequence_view(r.1@[i]) == item.2
            },
{
    let ghost all = domains_view(data@);
    let mut labels: Vec<(String, String)> = Vec::new();
    let mut sequences: Vec<Sequence> = Vec::new();
    let mut rest = data;
    let ghost mut done: int = 0;
    while rest.len() > 0
        invariant
            0 <= done <= all.len(),
            done + rest@.len() == all.len(),
            domains_view(rest@) == all.skip(done),
            sequences@.len() == labels@.len(),
            labels@.len() == test_items(all.take(done)).len(),
            forall|i: int|
                0 <= i < labels@.len() ==> {
                    let item = test_items(all.take(done))[i];
                    &&& (#[trigger] labels@[i]).0@ == item.0
                    &&& labels@[i].1@ == item.1
                    &&& sequence_view(sequences@[i]) == item.2
                },
        decreases rest@.len(),
    {
        let ghost old_rest = rest@;
        let domain = rest.remove(0);
        assert(domains_view(old_rest)[0] == all[done]);
        assert(domains_view(rest@) =~= all.skip(done + 1)) by {
            assert forall|i: int| 0 <= i < rest@.len() implies #[trigger] domains_view(rest@)[i] == all.skip(done + 1)[i] by {
                assert(rest@[i] == old_rest[i + 1]);
                assert(domains_view(old_rest)[i + 1] == all.skip(done)[i + 1]);
            }
        }
        let ghost d = all[done];
        let ghost before = test_items(all.take(done));
        assert(all.take(done + 1).drop_last() =~= all.take(done));
        assert(all.take(done + 1).last() == d);
        let LabelledSequences { true_domain, mapped_domain, sequences: seqs } = domain;
        let mut seqs = seqs;
        let ghost mut m: int = 0;
        while seqs.len() > 0
            invariant
                0 <= m <= d.2.len(),
                m + seqs@.len() == d.2.len(),
                sequences_view(seqs@) == d.2.skip(m),
                true_domain@ == d.0,
                mapped_domain@ == d.1,
                sequences@.len() == labels@.len(),
                labels@.len() == before.len() + m,
                forall|i: int|
                    0 <= i < labels@.len() ==> {
                        let item = (before + d.2.take(m).map_values(
                            |s: (Seq<SequenceElement>, Seq<char>)| (d.0, d.1, s),
                        ))[i];
                        &&& (#[trigger] labels@[i]).0@ == item.0
                        &&& labels@[i].1@ == item.1
                        &&& sequence_view(sequences@[i]) == item.2
                    },
            decreases seqs@.len(),
        {
            let ghost old_seqs = seqs@;
            let s = seqs.remove(0);
            assert(sequences_view(old_seqs)[0] == d.2[m]);
            assert(sequences_view(seqs@) =~= d.2.skip(m + 1)) by {
                assert forall|i: int| 0 <= i < seqs@.len() implies #[trigger] sequences_view(seqs@)[i] == d.2.skip(m + 1)[i] by {
                    assert(seqs@[i] == old_seqs[i + 1]);
                    assert(sequences_view(old_seqs)[i + 1] == d.2.skip(m)[i + 1]);
                }
            }
            labels.push((true_domain.clone(), mapped_domain.clone()));
            sequences.push(s);
            proof {
                let ext = |s: (Seq<SequenceElement>, Seq<char>)| (d.0, d.1, s);
                assert(d.2.take(m + 1).map_values(ext) =~= d.2.take(m).map_values(ext).push((d.0, d.1, d.2[m])));
                m = m + 1;
            }
        }
        assert(d.2.take(m) =~= d.2);
        proof {
            done = done + 1;
        }
    }
    assert(all.take(done) =~= all);
    (labels, sequences)
}

} // verus!
