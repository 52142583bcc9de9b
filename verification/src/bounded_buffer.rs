//! Buffer which keeps the last `max_size` distinct elements added to it.

use std::collections::VecDeque;
use vstd::laws_eq::obeys_concrete_eq;
use vstd::prelude::*;

verus! {

/// Buffer which keeps the last `max_size` elements added to it.
pub struct BoundedBuffer<T> {
    buffer: VecDeque<T>,
    max_size: usize,
}

/// Whether no element occurs twice.
pub open spec fn no_duplicates<T>(s: Seq<T>) -> bool {
    forall|i: int, j: int| 0 <= i < j < s.len() ==> s[i] != s[j]
}

/// The buffer contents after adding `e` to `s` with room for `max` elements: `e` is appended
/// unless it is present, and the oldest element leaves when the buffer is full.
pub open spec fn spec_add<T>(s: Seq<T>, max: nat, e: T) -> Seq<T> {
    if s.contains(e) {
        s
    } else if s.len() == max {
        s.drop_first().push(e)
    } else {
        s.push(e)
    }
}

impl<T> BoundedBuffer<T> {
    /// The buffer keeps at least one element, never more than its capacity, and none twice.
    pub closed spec fn wf(&self) -> bool {
        &&& self.max_size > 0
        &&& self.buffer@.len() <= self.max_size
        &&& no_duplicates(self.buffer@)
    }

    /// The elements, oldest first.
    pub closed spec fn view(&self) -> Seq<T> {
        self.buffer@
    }

    /// The number of elements the buffer keeps.
    pub closed spec fn capacity(&self) -> nat {
        self.max_size as nat
    }
}

impl<T: PartialEq> BoundedBuffer<T> {
    /// Create a new buffer keeping at most `max_size` elements.
    pub fn new(max_size: usize) -> (r: Self)
        requires
            max_size > 0,
        ensures
            r.wf(),
            r.view() == Seq::<T>::empty(),
            no_duplicates(r.view()),
            r.capacity() == max_size,
    {
        BoundedBuffer { buffer: VecDeque::with_capacity(max_size), max_size }
    }

    /// Add a new element, removing the oldest one if the buffer is full.
    ///
    /// If the element is already in the buffer, nothing changes.
    /// Returns `true` if the element was added and `false` if it was already present.
    pub fn add(&mut self, element: T) -> (r: bool)
        requires
            old(self).wf(),
            obeys_concrete_eq::<T>(),
        ensures
            final(self).wf(),
            r == !old(self).view().contains(element),
            final(self).view() == spec_add(old(self).view(), old(self).capacity(), element),
            final(self).capacity() == old(self).capacity(),
            final(self).view().len() <= final(self).capacity(),
            final(self).capacity() > 0,
            final(self).view().contains(element),
            no_duplicates(final(self).view()),
    {
        proof {
            lemma_add_keeps_distinct(self.buffer@, self.max_size as nat, element);
        }
        if self.contains(&element) {
            false
        } else {
            if self.buffer.len() == self.max_size {
                let _ = self.buffer.pop_front();
                assert(self.buffer@ =~= old(self).view().drop_first());
            }
            self.buffer.push_back(element);
            true
        }
    }

    /// Returns `true` if the buffer contains `element`.
    pub fn contains(&self, element: &T) -> (r: bool)
        requires
            obeys_concrete_eq::<T>(),
        ensures
            r == self.view().contains(*element),
    {
        proof {
            reveal(obeys_concrete_eq);
        }
        let len = self.buffer.len();
        let mut i: usize = 0;
        while i < len
            invariant
                i <= len,
                len == self.buffer@.len(),
                obeys_concrete_eq::<T>(),
                forall|j: int| 0 <= j < i ==> self.buffer@[j] != *element,
            decreases len - i,
        {
            proof {
                reveal(obeys_concrete_eq);
            }
            if self.buffer[i] == *element {
                assert(self.buffer@[i as int] == *element);
                return true;
            }
            i = i + 1;
        }
        false
    }
}

/// Adding never creates duplicates and never exceeds the capacity.
pub proof fn lemma_add_keeps_distinct<T>(s: Seq<T>, max: nat, e: T)
    requires
        no_duplicates(s),
        s.len() <= max,
        max > 0,
    ensures
        no_duplicates(spec_add(s, max, e)),
        spec_add(s, max, e).len() <= max,
        spec_add(s, max, e).contains(e),
{
    let r = spec_add(s, max, e);
    if !s.contains(e) {
        assert(r[r.len() - 1] == e);
        assert forall|i: int, j: int| 0 <= i < j < r.len() implies r[i] != r[j] by {
            if j == r.len() - 1 {
                if s.len() == max {
                    assert(r[i] == s[i + 1]);
                } else {
                    assert(r[i] == s[i]);
                }
            } else if s.len() == max {
                assert(r[i] == s[i + 1] && r[j] == s[j + 1]);
            } else {
                assert(r[i] == s[i] && r[j] == s[j]);
            }
        }
    }
}

} // verus!
