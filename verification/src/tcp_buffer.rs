//! TCP stream reassembly.

use crate::bounded_buffer::{spec_add, BoundedBuffer};
use std::collections::BTreeMap;
use vstd::prelude::*;

verus! {

broadcast use {vstd::std_specs::btree::group_btree_axioms, vstd::laws_cmp::group_laws_cmp, vstd::laws_eq::group_laws_eq};

/// How many recent sequence numbers are remembered to detect duplicate segments.
pub const SEEN_SEQUENCE_NUMBERS: usize = 20;

/// Abstract state of a [`TcpBuffer`].
#[verifier::ext_equal]
pub struct TcpState {
    /// Recently accepted sequence numbers, oldest first.
    pub seen: Seq<u32>,
    /// The sequence number the next in-order segment starts with, once known.
    pub next: Option<u32>,
    /// The reassembled bytes not yet consumed.
    pub data: Seq<u8>,
    /// Segments which arrived ahead of their turn, by sequence number.
    pub pending: Map<u32, Seq<u8>>,
}

/// The sequence number following a segment of `len` bytes starting at `seq`, modulo 2^32.
pub open spec fn next_sequence_number(seq: u32, len: nat) -> u32 {
    let l = len % 0x1_0000_0000;
    if seq + l > u32::MAX {
        (seq + l - 0x1_0000_0000) as u32
    } else {
        (seq + l) as u32
    }
}

/// The state after a segment of `data` with sequence number `seq` arrives.
///
/// A segment whose sequence number was seen recently is dropped. The first segment, or the one
/// expected next, is appended; then a pending segment that now follows is taken in as well, and so
/// on. Any other segment waits in `pending`.
pub open spec fn spec_add_data(st: TcpState, seq: u32, data: Seq<u8>) -> TcpState
    decreases st.pending.dom().len(),
{
    if st.seen.contains(seq) {
        st
    } else if st.next is None || st.next == Some(seq) {
        let n = next_sequence_number(seq, data.len());
        let st1 = TcpState {
            seen: spec_add(st.seen, SEEN_SEQUENCE_NUMBERS as nat, seq),
            next: Some(n),
            data: st.data + data,
            pending: st.pending,
        };
        if st.pending.dom().finite() && st.pending.contains_key(n) {
            spec_add_data(TcpState { pending: st.pending.remove(n), ..st1 }, n, st.pending[n])
        } else {
            st1
        }
    } else {
        TcpState { pending: st.pending.insert(seq, data), ..st }
    }
}

/// Appends `data` to `buf`.
fn append_bytes(buf: &mut Vec<u8>, data: &[u8])
    ensures
        final(buf)@ == old(buf)@ + data@,
{
    let mut i: usize = 0;
    while i < data.len()
        invariant
            i <= data@.len(),
            buf@ == old(buf)@ + data@.take(i as int),
        decreases data@.len() - i,
    {
        assert(data@.take(i + 1) =~= data@.take(i as int).push(data@[i as int]));
        buf.push(data[i]);
        i = i + 1;
    }
    assert(data@.take(data@.len() as int) =~= data@);
}

/// Why a request to a [`TcpBuffer`] failed.
#[derive(Clone, Copy, PartialEq, Eq, Structural, Debug)]
pub enum TcpBufferError {
    /// More bytes were to be consumed than the buffer holds.
    ConsumeTooMuch { requested: usize, available: usize },
}

/// Reassembles a TCP byte stream from segments which may arrive duplicated or out of order.
pub struct TcpBuffer {
    seen_sequence_numbers: BoundedBuffer<u32>,
    next_sequence_number: Option<u32>,
    buffer: Vec<u8>,
    unprocessed_data: BTreeMap<u32, Vec<u8>>,
}

impl TcpBuffer {
    pub closed spec fn state(&self) -> TcpState {
        TcpState {
            seen: self.seen_sequence_numbers.view(),
            next: self.next_sequence_number,
            data: self.buffer@,
            pending: self.unprocessed_data@.map_values(|v: Vec<u8>| v@),
        }
    }

    pub closed spec fn wf(&self) -> bool {
        &&& self.seen_sequence_numbers.wf()
        &&& self.seen_sequence_numbers.capacity() == SEEN_SEQUENCE_NUMBERS
    }

    pub fn new() -> (r: Self)
        ensures
            r.wf(),
            r.state().seen == Seq::<u32>::empty(),
            r.state().next is None,
            r.state().data == Seq::<u8>::empty(),
            r.state().pending == Map::<u32, Seq<u8>>::empty(),
    {
        let r = TcpBuffer {
            seen_sequence_numbers: BoundedBuffer::new(SEEN_SEQUENCE_NUMBERS),
            next_sequence_number: None,
            buffer: Vec::with_capacity(4096),
            unprocessed_data: BTreeMap::new(),
        };
        assert(r.state().pending =~= Map::<u32, Seq<u8>>::empty());
        r
    }

    /// Add a segment with sequence number `sequence_number` to the buffer.
    pub fn add_data(&mut self, sequence_number: u32, data: &[u8])
        requires
            old(self).wf(),
        ensures
            final(self).wf(),
            final(self).state() == spec_add_data(old(self).state(), sequence_number, data@),
        decreases old(self).state().pending.dom().len(),
    {
        if self.seen_sequence_numbers.contains(&sequence_number) {
            return;
        }
        let in_order = match self.next_sequence_number {
            None => true,
            Some(n) => n == sequence_number,
        };
        if in_order {
            let len = (data.len() as u64 % 0x1_0000_0000u64) as u32;
            let next = sequence_number.wrapping_add(len);
            self.next_sequence_number = Some(next);
            self.seen_sequence_numbers.add(sequence_number);
            append_bytes(&mut self.buffer, data);
            let ghost st1 = self.state();
            assert(next == next_sequence_number(sequence_number, data@.len()));
            assert(st1.seen == spec_add(old(self).state().seen, SEEN_SEQUENCE_NUMBERS as nat, sequence_number));
            assert(st1.data == old(self).state().data + data@);
            assert(st1.pending == old(self).state().pending);
            if !self.unprocessed_data.is_empty() {
                if let Some(d) = self.unprocessed_data.remove(&next) {
                    assert(self.state().pending =~= st1.pending.remove(next));
                    assert(st1.pending.dom() =~= old(self).unprocessed_data@.dom());
                    assert(st1.pending.dom().finite());
                    assert(st1.pending.dom().contains(next));
                    assert(self.state().pending.dom().len() < old(self).state().pending.dom().len());
                    assert(d@ == st1.pending[next]);
                    self.add_data(next, d.as_slice());
                } else {
                    assert(!st1.pending.contains_key(next));
                }
            } else {
                assert(!st1.pending.contains_key(next));
            }
        } else {
            assert(old(self).state().next is Some && old(self).state().next != Some(sequence_number));
            let ghost old_pending = self.state().pending;
            let mut copy: Vec<u8> = Vec::new();
            let mut i: usize = 0;
            while i < data.len()
                invariant
                    i <= data@.len(),
                    copy@ == data@.take(i as int),
                decreases data@.len() - i,
            {
                assert(data@.take(i + 1) =~= data@.take(i as int).push(data@[i as int]));
                copy.push(data[i]);
                i = i + 1;
            }
            assert(data@.take(data@.len() as int) =~= data@);
            self.unprocessed_data.insert(sequence_number, copy);
            assert(self.state().pending =~= old_pending.insert(sequence_number, data@));
        }
    }

    /// The reassembled bytes currently stored.
    pub fn view_data(&self) -> (r: &[u8])
        ensures
            r@ == self.state().data,
    {
        self.buffer.as_slice()
    }

    /// Drop all stored data, reassembled and pending.
    pub fn clear_data(&mut self)
        requires
            old(self).wf(),
        ensures
            final(self).wf(),
            final(self).state() == (TcpState {
                data: Seq::<u8>::empty(),
                pending: Map::<u32, Seq<u8>>::empty(),
                ..old(self).state()
            }),
    {
        self.buffer.clear();
        self.unprocessed_data.clear();
        assert(self.state().pending =~= Map::<u32, Seq<u8>>::empty());
    }

    /// Consume `numb` bytes from the start of the reassembled data.
    pub fn consume(&mut self, numb: usize) -> (r: Result<(), TcpBufferError>)
        requires
            old(self).wf(),
        ensures
            final(self).wf(),
            numb <= old(self).state().data.len() ==> r is Ok && final(self).state() == (TcpState {
                data: old(self).state().data.skip(numb as int),
                ..old(self).state()
            }),
            numb > old(self).state().data.len() ==> r == Err::<(), TcpBufferError>(
                TcpBufferError::ConsumeTooMuch { requested: numb, available: old(self).state().data.len() as usize },
            ) && final(self).state() == old(self).state(),
    {
        if numb > self.buffer.len() {
            return Err(TcpBufferError::ConsumeTooMuch { requested: numb, available: self.buffer.len() });
        }
        let rest = self.buffer.split_off(numb);
        self.buffer = rest;
        assert(self.buffer@ =~= old(self).buffer@.skip(numb as int));
        Ok(())
    }

    /// Returns `true` if neither reassembled nor pending data is stored.
    pub fn is_empty(&self) -> (r: bool)
        ensures
            r == (self.state().data.len() == 0 && self.state().pending.dom().len() == 0),
    {
        let r = self.buffer.len() == 0 && self.unprocessed_data.is_empty();
        proof {
            assert(self.state().pending.dom() =~= self.unprocessed_data@.dom());
            if self.unprocessed_data@.is_empty() {
                assert(self.state().pending.dom() =~= Set::<u32>::empty());
            } else {
                let k = choose|k: u32| self.unprocessed_data@.dom().contains(k);
                assert(self.state().pending.dom().contains(k));
                assert(self.state().pending.dom().len() > 0);
            }
        }
        r
    }
}

} // verus!
