//! Sequences of elements with an identifier, and labelled collections of them.

use crate::sequence_element::SequenceElement;
use vstd::prelude::*;

verus! {

/// A sequence of elements, usually extracted from one trace, with its identifier.
pub struct Sequence {
    elements: Vec<SequenceElement>,
    identifier: String,
}

impl Sequence {
    /// The elements in order.
    pub closed spec fn elements(&self) -> Seq<SequenceElement> {
        self.elements@
    }

    /// The identifier, normally the file name.
    pub closed spec fn identifier(&self) -> Seq<char> {
        self.identifier@
    }

    pub fn new(elements: Vec<SequenceElement>, identifier: String) -> (r: Self)
        ensures
            r.elements() == elements@,
            r.identifier() == identifier@,
    {
        Sequence { elements, identifier }
    }

    /// Returns the identifier.
    pub fn id(&self) -> (r: &str)
        ensures
            r@ == self.identifier(),
    {
        self.identifier.as_str()
    }

    /// The elements in order.
    pub fn as_elements(&self) -> (r: &[SequenceElement])
        ensures
            r@ == self.elements(),
    {
        self.elements.as_slice()
    }

    /// A copy of this sequence.
    pub fn duplicate(&self) -> (r: Self)
        ensures
            r.elements() == self.elements(),
            r.identifier() == self.identifier(),
    {
        let mut elements: Vec<SequenceElement> = Vec::new();
        let mut i: usize = 0;
        while i < self.elements.len()
            invariant
                i <= self.elements@.len(),
                elements@ == self.elements@.take(i as int),
            decreases self.elements@.len() - i,
        {
            elements.push(self.elements[i]);
            i = i + 1;
            assert(elements@ =~= self.elements@.take(i as int));
        }
        assert(self.elements@.take(self.elements@.len() as int) =~= self.elements@);
        Sequence { elements, identifier: self.identifier.clone() }
    }

    /// The number of elements.
    pub fn len(&self) -> (r: usize)
        ensures
            r == self.elements().len(),
    {
        self.elements.len()
    }
}

/// A sequence as values: its elements and its identifier.
pub open spec fn sequence_view(s: Sequence) -> (Seq<SequenceElement>, Seq<char>) {
    (s.elements(), s.identifier())
}

/// The values of a list of sequences.
pub open spec fn sequences_view(v: Seq<Sequence>) -> Seq<(Seq<SequenceElement>, Seq<char>)> {
    v.map_values(|s: Sequence| sequence_view(s))
}

/// The sequences of one domain.
pub struct LabelledSequences {
    /// The domain the sequences were recorded for.
    pub true_domain: String,
    /// The label the domain is classified as.
    pub mapped_domain: String,
    pub sequences: Vec<Sequence>,
}

/// One sequence of a domain.
pub struct LabelledSequence {
    /// The domain the sequence was recorded for.
    pub true_domain: String,
    /// The label the domain is classified as.
    pub mapped_domain: String,
    pub sequence: Sequence,
}

} // verus!
