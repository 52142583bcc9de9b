//! The elements a DNS sequence is made of and their edit costs.

use crate::constants::{
    GAP_INSERT_COST_MULTIPLIER, GAP_SUBSTITUTE_COST_MULTIPLIER, SIZE_INSERT_COST,
    SIZE_SUBSTITUTE_COST_DIVIDER, SWAP_COST,
};
use vstd::prelude::*;

verus! {

/// One element of a sequence: either a message of a (padded) size class, or a gap in time.
#[derive(Copy, Clone, PartialEq, Eq, Structural, Hash, Debug)]
pub enum SequenceElement {
    Size(u8),
    Gap(u16),
}

/// Vector form of an element used for machine learning.
pub type OneHotEncoding = Vec<u16>;

/// Whether an element is the degenerate `Size(0)`, which never stems from a real message.
pub open spec fn is_size_zero(e: SequenceElement) -> bool {
    e matches SequenceElement::Size(0)
}

/// Cost of inserting (or deleting) an element.
pub open spec fn spec_insert_cost(e: SequenceElement) -> int {
    match e {
        SequenceElement::Size(_) => SIZE_INSERT_COST as int,
        SequenceElement::Gap(g) => g * GAP_INSERT_COST_MULTIPLIER,
    }
}

/// Cost of replacing `a` by `b`.
pub open spec fn spec_substitute_cost(a: SequenceElement, b: SequenceElement) -> int {
    if a == b {
        0
    } else {
        match (a, b) {
            (SequenceElement::Size(_), SequenceElement::Size(_)) => (spec_insert_cost(a)
                + spec_insert_cost(b)) / SIZE_SUBSTITUTE_COST_DIVIDER as int,
            (SequenceElement::Gap(g1), SequenceElement::Gap(g2)) => (if g1 >= g2 {
                g1 - g2
            } else {
                g2 - g1
            }) * GAP_SUBSTITUTE_COST_MULTIPLIER,
            _ => spec_insert_cost(a) + spec_insert_cost(b),
        }
    }
}

/// Cost of swapping two neighbouring elements.
pub open spec fn spec_swap_cost(a: SequenceElement, b: SequenceElement) -> int {
    if a == b {
        0
    } else {
        SWAP_COST as int
    }
}

/// Whether an element has a one-hot encoding.
pub open spec fn has_one_hot_encoding(e: SequenceElement) -> bool {
    match e {
        SequenceElement::Size(s) => 1 <= s < 16,
        SequenceElement::Gap(_) => true,
    }
}

impl SequenceElement {
    pub fn insert_cost(self) -> (r: usize)
        requires
            !is_size_zero(self),
        ensures
            r == spec_insert_cost(self),
    {
        match self {
            SequenceElement::Size(_) => SIZE_INSERT_COST,
            SequenceElement::Gap(g) => g as usize * GAP_INSERT_COST_MULTIPLIER,
        }
    }

    /// The delete cost equals the insert cost, which keeps the distance symmetric.
    pub fn delete_cost(self) -> (r: usize)
        requires
            !is_size_zero(self),
        ensures
            r == spec_insert_cost(self),
    {
        self.insert_cost()
    }

    pub fn substitute_cost(self, other: Self) -> (r: usize)
        requires
            self == other || (!is_size_zero(self) && !is_size_zero(other)),
        ensures
            r == spec_substitute_cost(self, other),
    {
        if self == other {
            return 0;
        }
        match (self, other) {
            (SequenceElement::Size(_), SequenceElement::Size(_)) => {
                (self.insert_cost() + other.delete_cost()) / SIZE_SUBSTITUTE_COST_DIVIDER
            },
            (SequenceElement::Gap(g1), SequenceElement::Gap(g2)) => {
                let hi = if g1 >= g2 { g1 } else { g2 };
                let lo = if g1 >= g2 { g2 } else { g1 };
                (hi - lo) as usize * GAP_SUBSTITUTE_COST_MULTIPLIER
            },
            (a, b) => a.delete_cost() + b.insert_cost(),
        }
    }

    pub fn swap_cost(self, other: Self) -> (r: usize)
        ensures
            r == spec_swap_cost(self, other),
    {
        if self == other {
            return 0;
        }
        SWAP_COST
    }

    /// Sixteen entries: a size class `s` sets entry `s` to one, a gap `g` sets entry 0 to `g`.
    pub fn to_one_hot_encoding(self) -> (r: OneHotEncoding)
        requires
            has_one_hot_encoding(self),
        ensures
            r@.len() == 16,
            forall|i: int|
                0 <= i < 16 ==> #[trigger] r@[i] == match self {
                    SequenceElement::Size(s) => if i == s as int {
                        1u16
                    } else {
                        0u16
                    },
                    SequenceElement::Gap(g) => if i == 0 {
                        g
                    } else {
                        0u16
                    },
                },
    {
        let mut res: Vec<u16> = Vec::new();
        let mut i: usize = 0;
        while i < 16
            invariant
                i <= 16,
                res@.len() == i,
                forall|j: int| 0 <= j < i ==> #[trigger] res@[j] == 0u16,
            decreases 16 - i,
        {
            res.push(0);
            i = i + 1;
        }
        match self {
            SequenceElement::Size(s) => {
                res.set(s as usize, 1);
            },
            SequenceElement::Gap(g) => {
                res.set(0, g);
            },
        }
        res
    }

    /// The pair `(size, gap)` with the other component zero.
    pub fn to_vector_encoding(self) -> (r: (u16, u16))
        ensures
            r == match self {
                SequenceElement::Size(s) => (s as u16, 0u16),
                SequenceElement::Gap(g) => (0u16, g),
            },
    {
        match self {
            SequenceElement::Size(s) => (s as u16, 0),
            SequenceElement::Gap(g) => (0, g),
        }
    }
}

/// The delete cost equals the insert cost, and substitution and swap are symmetric, so the
/// edit distance built from these costs does not depend on the order of its arguments.
pub proof fn lemma_costs_symmetric(a: SequenceElement, b: SequenceElement)
    ensures
        spec_substitute_cost(a, b) == spec_substitute_cost(b, a),
        spec_swap_cost(a, b) == spec_swap_cost(b, a),
        spec_substitute_cost(a, a) == 0,
        spec_swap_cost(a, a) == 0,
{
}

} // verus!
