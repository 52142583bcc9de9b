//! Object framing for JSON Lines output: every top-level object ends with a newline.

use vstd::prelude::*;

verus! {

/// Tracks how deeply the objects being written are nested.
#[derive(Debug)]
pub struct JsonlFormatter {
    nesting_level: usize,
}

impl JsonlFormatter {
    /// Number of objects opened and not yet closed.
    pub closed spec fn depth(&self) -> nat {
        self.nesting_level as nat
    }

    /// A formatter outside of any object.
    pub fn new() -> (r: Self)
        ensures
            r.depth() == 0,
    {
        JsonlFormatter { nesting_level: 0 }
    }

    /// Number of objects opened and not yet closed.
    pub fn nesting_level(&self) -> (r: usize)
        ensures
            r == self.depth(),
    {
        self.nesting_level
    }

    /// Opens an object: writes `{` and goes one level deeper.
    pub fn begin_object(&mut self, out: &mut Vec<u8>)
        requires
            old(self).depth() < usize::MAX,
        ensures
            final(self).depth() == old(self).depth() + 1,
            final(out)@ == old(out)@.push(123u8),
    {
        self.nesting_level = self.nesting_level + 1;
        out.push(123u8);
    }

    /// Closes an object: writes `}`, and a newline when it was a top-level object.
    pub fn end_object(&mut self, out: &mut Vec<u8>)
        requires
            old(self).depth() > 0,
        ensures
            final(self).depth() == old(self).depth() - 1,
            final(out)@ == (if final(self).depth() == 0 {
                old(out)@.push(125u8).push(10u8)
            } else {
                old(out)@.push(125u8)
            }),
    {
        self.nesting_level = self.nesting_level - 1;
        out.push(125u8);
        if self.nesting_level == 0 {
            out.push(10u8);
        }
    }
}

/// Opening and then closing an object leaves the depth as it was, and the bytes written are
/// `{}`, followed by a newline exactly when the formatter was outside of any object.
pub proof fn lemma_object_round_trip(
    f0: JsonlFormatter,
    f1: JsonlFormatter,
    f2: JsonlFormatter,
    o0: Seq<u8>,
    o1: Seq<u8>,
    o2: Seq<u8>,
)
    requires
        f0.depth() < usize::MAX,
        f1.depth() == f0.depth() + 1,
        o1 == o0.push(123u8),
        f2.depth() == f1.depth() - 1,
        o2 == (if f2.depth() == 0 {
            o1.push(125u8).push(10u8)
        } else {
            o1.push(125u8)
        }),
    ensures
        f2.depth() == f0.depth(),
        f0.depth() == 0 ==> o2 == o0 + seq![123u8, 125u8, 10u8],
        f0.depth() > 0 ==> o2 == o0 + seq![123u8, 125u8],
{
    if f0.depth() == 0 {
        assert(o2 =~= o0 + seq![123u8, 125u8, 10u8]);
    } else {
        assert(o2 =~= o0 + seq![123u8, 125u8]);
    }
}

} // verus!
