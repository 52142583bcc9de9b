//! DNS over TCP framing: every message is preceded by its length as a big-endian 16-bit number.
//!
//! [`DnsBytesStream`] takes the bytes read from a connection and hands out the messages as soon
//! as they are complete; [`frame_dns_message`] prepares a message for writing.

use vstd::prelude::*;

verus! {

/// The big-endian number in the bytes `hi` and `lo`.
pub open spec fn be_u16(hi: u8, lo: u8) -> u16 {
    (hi as int * 256 + lo as int) as u16
}

/// Reads a big-endian `u16` from the start of `buf`.
///
/// Calls `byteorder::BigEndian::read_u16`, which returns the number the first two bytes encode
/// in big-endian order and panics on fewer than two bytes.
#[verifier::external_body]
fn read_u16_be(buf: &[u8]) -> (r: u16)
    requires
        buf@.len() >= 2,
    ensures
        r == be_u16(buf@[0], buf@[1]),
{
    <byteorder::BigEndian as byteorder::ByteOrder>::read_u16(buf)
}

/// Writes `n` in big-endian order into the first two bytes of `buf`.
///
/// Calls `byteorder::BigEndian::write_u16`, which stores the high byte of `n` first and the low
/// byte second, leaves the rest of `buf` alone, and panics on fewer than two bytes.
#[verifier::external_body]
fn write_u16_be(buf: &mut Vec<u8>, n: u16)
    requires
        old(buf)@.len() >= 2,
    ensures
        final(buf)@ == old(buf)@.update(0, (n / 256) as u8).update(1, (n % 256) as u8),
{
    <byteorder::BigEndian as byteorder::ByteOrder>::write_u16(&mut buf[..], n)
}

/// What the stream reads next.
#[derive(Clone, Copy, Debug, PartialEq, Eq, Structural)]
pub enum DnsBytesReadState {
    /// The two bytes of a length header.
    Length,
    /// A message of the length read.
    DnsMessage,
}

/// Splits the bytes read from a DNS over TCP connection into messages.
pub struct DnsBytesStream {
    buf: Vec<u8>,
    expected_bytes: usize,
    read_state: DnsBytesReadState,
}

/// The state of a [`DnsBytesStream`]: the bytes not yet handed out, how many it waits for, and
/// what it reads next.
pub type StreamState = (Seq<u8>, nat, DnsBytesReadState);

/// The next message of a stream in state `st`, and the state after it, if the bytes suffice.
///
/// A complete length header is taken even where the message it announces is not complete yet;
/// the stream then waits for that message.
pub open spec fn spec_next_message(st: StreamState) -> (Option<Seq<u8>>, StreamState) {
    let (buf, expected, state) = st;
    match state {
        DnsBytesReadState::Length => if buf.len() < 2 {
            (None, st)
        } else {
            let len = be_u16(buf[0], buf[1]) as nat;
            let rest = buf.skip(2);
            if rest.len() >= len {
                (Some(rest.take(len as int)), (rest.skip(len as int), 2, DnsBytesReadState::Length))
            } else {
                (None, (rest, len, DnsBytesReadState::DnsMessage))
            }
        },
        DnsBytesReadState::DnsMessage => if buf.len() >= expected {
            (Some(buf.take(expected as int)), (buf.skip(expected as int), 2, DnsBytesReadState::Length))
        } else {
            (None, st)
        },
    }
}

impl DnsBytesStream {
    pub closed spec fn state(&self) -> StreamState {
        (self.buf@, self.expected_bytes as nat, self.read_state)
    }

    /// A stream waiting for a length header waits for two bytes.
    pub closed spec fn wf(&self) -> bool {
        self.read_state == DnsBytesReadState::Length ==> self.expected_bytes == 2
    }

    /// A stream that has read nothing and waits for a length header.
    pub fn new() -> (r: Self)
        ensures
            r.wf(),
            r.state() == (Seq::<u8>::empty(), 2nat, DnsBytesReadState::Length),
    {
        DnsBytesStream { buf: Vec::new(), expected_bytes: 2, read_state: DnsBytesReadState::Length }
    }

    /// Whether the stream needs more bytes before it can hand out a message.
    pub fn needs_bytes(&self) -> (r: bool)
        ensures
            r == (self.state().0.len() < self.state().1),
    {
        self.buf.len() < self.expected_bytes
    }

    /// Adds bytes read from the connection.
    pub fn push_bytes(&mut self, data: &[u8])
        requires
            old(self).wf(),
        ensures
            final(self).wf(),
            final(self).state() == (old(self).state().0 + data@, old(self).state().1, old(self).state().2),
    {
        let mut i: usize = 0;
        while i < data.len()
            invariant
                i <= data@.len(),
                self.buf@ == old(self).buf@ + data@.take(i as int),
                self.expected_bytes == old(self).expected_bytes,
                self.read_state == old(self).read_state,
            decreases data@.len() - i,
        {
            self.buf.push(data[i]);
            i = i + 1;
            assert(self.buf@ =~= old(self).buf@ + data@.take(i as int));
        }
        assert(data@.take(data@.len() as int) =~= data@);
    }

    /// Removes and returns the first `n` buffered bytes.
    fn take_front(&mut self, n: usize) -> (r: Vec<u8>)
        requires
            n <= old(self).buf@.len(),
        ensures
            r@ == old(self).buf@.take(n as int),
            final(self).buf@ == old(self).buf@.skip(n as int),
            final(self).expected_bytes == old(self).expected_bytes,
            final(self).read_state == old(self).read_state,
    {
        let mut front = self.buf.split_off(n);
        std::mem::swap(&mut front, &mut self.buf);
        assert(front@ =~= old(self).buf@.take(n as int));
        assert(self.buf@ =~= old(self).buf@.skip(n as int));
        front
    }

    /// Hands out the next message if its bytes have been read (see [`spec_next_message`]).
    pub fn next_message(&mut self) -> (r: Option<Vec<u8>>)
        requires
            old(self).wf(),
        ensures
            final(self).wf(),
            ({
                let (m, st) = spec_next_message(old(self).state());
                &&& final(self).state() == st
                &&& match r {
                    Some(v) => m == Some(v@),
                    None => m is None,
                }
            }),
    {
        if self.buf.len() < self.expected_bytes {
            return None;
        }
        match self.read_state {
            DnsBytesReadState::Length => {
                let len = read_u16_be(self.buf.as_slice()) as usize;
                let _header = self.take_front(self.expected_bytes);
                self.expected_bytes = len;
                self.read_state = DnsBytesReadState::DnsMessage;
                assert(old(self).expected_bytes == 2);
                if self.buf.len() >= self.expected_bytes {
                    let message = self.take_front(self.expected_bytes);
                    self.expected_bytes = 2;
                    self.read_state = DnsBytesReadState::Length;
                    Some(message)
                } else {
                    None
                }
            },
            DnsBytesReadState::DnsMessage => {
                let message = self.take_front(self.expected_bytes);
                self.expected_bytes = 2;
                self.read_state = DnsBytesReadState::Length;
                Some(message)
            },
        }
    }
}

/// A message as written to the connection: its length modulo 2^16 in two big-endian bytes,
/// followed by the message.
pub open spec fn spec_frame(message: Seq<u8>) -> Seq<u8> {
    let len = (message.len() % 65536) as u16;
    seq![(len / 256) as u8, (len % 256) as u8] + message
}

/// Prepares `message` for writing: two bytes for the length, then the message; the length is
/// written over the two bytes once the message is in place.
pub fn frame_dns_message(message: &[u8]) -> (r: Vec<u8>)
    ensures
        r@ == spec_frame(message@),
{
    let mut out: Vec<u8> = Vec::new();
    out.push(0);
    out.push(0);
    let mut i: usize = 0;
    while i < message.len()
        invariant
            i <= message@.len(),
            out@ == seq![0u8, 0u8] + message@.take(i as int),
        decreases message@.len() - i,
    {
        out.push(message[i]);
        i = i + 1;
        assert(out@ =~= seq![0u8, 0u8] + message@.take(i as int));
    }
    assert(message@.take(message@.len() as int) =~= message@);
    let len = ((out.len() - 2) % 65536) as u16;
    write_u16_be(&mut out, len);
    assert(out@ =~= spec_frame(message@));
    out
}

/// A stream waiting for a length header hands out a message written with [`frame_dns_message`]
/// once all its bytes are read, and keeps what follows it: what is read back is what was
/// written, for every message of up to 65535 bytes.
pub proof fn lemma_frame_round_trip(message: Seq<u8>, rest: Seq<u8>)
    requires
        message.len() <= 65535,
    ensures
        spec_next_message((spec_frame(message) + rest, 2, DnsBytesReadState::Length)) == (
            Some(message),
            (rest, 2nat, DnsBytesReadState::Length),
        ),
{
    let all = spec_frame(message) + rest;
    let len = (message.len() % 65536) as u16;
    assert(all[0] == (len / 256) as u8);
    assert(all[1] == (len % 256) as u8);
    assert(be_u16(all[0], all[1]) == len);
    assert(all.skip(2) =~= message + rest);
    assert((message + rest).take(message.len() as int) =~= message);
    assert((message + rest).skip(message.len() as int) =~= rest);
}

} // verus!
