//! Decoding of Frame Streams data: a sequence of length-prefixed frames with control frames.

use vstd::prelude::*;
use vstd::utf8::encode_utf8;

verus! {

/// Marks a control frame.
pub const CONTROL_ESCAPE: u32 = 0x00;
/// Control frame type which starts a stream.
pub const CONTROL_START: u32 = 0x02;
/// Control frame type which stops a stream.
pub const CONTROL_STOP: u32 = 0x03;
/// Control field carrying the content type.
pub const CONTROL_FIELD_CONTENT_TYPE: u32 = 0x01;

/// The big-endian number in four bytes.
pub open spec fn be_u32(b: Seq<u8>) -> u32 {
    (b[0] as int * 0x1000000 + b[1] as int * 0x10000 + b[2] as int * 0x100 + b[3] as int) as u32
}

/// Reads a big-endian `u32` from the start of `buf`.
///
/// Calls `byteorder::BigEndian::read_u32`, which returns the number the first four bytes
/// encode in big-endian order and panics on fewer than four bytes.
#[verifier::external_body]
fn read_u32_be(buf: &[u8]) -> (r: u32)
    requires
        buf@.len() >= 4,
    ensures
        r == be_u32(buf@),
{
    <byteorder::BigEndian as byteorder::ByteOrder>::read_u32(buf)
}

/// The text `bytes` decode to, with invalid UTF-8 replaced.
pub uninterp spec fn utf8_lossy(bytes: Seq<u8>) -> Seq<char>;

/// The text `bytes` decode to: what they encode where they are valid UTF-8, else the text with
/// the invalid parts replaced.
pub open spec fn lossy_text(bytes: Seq<u8>) -> Seq<char> {
    if vstd::utf8::valid_utf8(bytes) {
        vstd::utf8::decode_utf8(bytes)
    } else {
        utf8_lossy(bytes)
    }
}

/// Calls `String::from_utf8_lossy`, whose result depends on the bytes only; bytes that are
/// valid UTF-8 come back as the text they encode, unchanged.
#[verifier::external_body]
fn from_utf8_lossy(bytes: &[u8]) -> (r: String)
    ensures
        r@ == utf8_lossy(bytes@),
        r@ == lossy_text(bytes@),
{
    String::from_utf8_lossy(bytes).to_string()
}

/// Errors while decoding a stream.
#[derive(Clone, Debug)]
pub enum DecodeError {
    /// The data ended in the middle of a frame.
    Io,
    /// A control frame has an unknown type.
    InvalidMagicBytes { magic_bytes: u32 },
    /// A start frame holds an unknown field.
    UnknownFieldsInHeader { magic_bytes: u32 },
    /// The stream's content type is not the expected one.
    UnwantedContentType { got: String, expected: String },
    /// A second start frame was found.
    DuplicateStartFrame,
    /// A control frame has an impossible length.
    InvalidLength,
}

/// One frame of the stream.
#[derive(Clone, Debug)]
pub enum Frame {
    Content(Vec<u8>),
    Start,
    Stop,
}

/// Abstract form of a decode error, with text as character sequences.
pub enum DecodeErr {
    Io,
    InvalidMagicBytes(u32),
    UnknownFieldsInHeader(u32),
    UnwantedContentType(Seq<char>, Seq<char>),
    DuplicateStartFrame,
    InvalidLength,
}

/// Abstract form of a frame.
pub enum FrameV {
    Content(Seq<u8>),
    Start,
    Stop,
}

impl DecodeError {
    pub open spec fn view(&self) -> DecodeErr {
        match self {
            DecodeError::Io => DecodeErr::Io,
            DecodeError::InvalidMagicBytes { magic_bytes } => DecodeErr::InvalidMagicBytes(*magic_bytes),
            DecodeError::UnknownFieldsInHeader { magic_bytes } => DecodeErr::UnknownFieldsInHeader(*magic_bytes),
            DecodeError::UnwantedContentType { got, expected } => DecodeErr::UnwantedContentType(got@, expected@),
            DecodeError::DuplicateStartFrame => DecodeErr::DuplicateStartFrame,
            DecodeError::InvalidLength => DecodeErr::InvalidLength,
        }
    }
}

impl Frame {
    pub open spec fn view(&self) -> FrameV {
        match self {
            Frame::Content(c) => FrameV::Content(c@),
            Frame::Start => FrameV::Start,
            Frame::Stop => FrameV::Stop,
        }
    }
}

/// The `u32` at `pos`, or `None` if fewer than four bytes are left.
pub open spec fn u32_at(data: Seq<u8>, pos: int) -> Option<u32> {
    if 0 <= pos && pos + 4 <= data.len() {
        Some(be_u32(data.subrange(pos, pos + 4)))
    } else {
        None
    }
}

/// Checks the fields of a start frame body `body` from `pos` on.
pub open spec fn spec_start_fields(body: Seq<u8>, pos: int, expected: Option<Seq<char>>) -> Result<(), DecodeErr>
    decreases body.len() - pos,
{
    if pos >= body.len() || pos < 0 {
        Ok(())
    } else {
        match u32_at(body, pos) {
            None => Err(DecodeErr::Io),
            Some(field) => if field == CONTROL_FIELD_CONTENT_TYPE {
                match u32_at(body, pos + 4) {
                    None => Err(DecodeErr::Io),
                    Some(len) => if pos + 8 + len > body.len() {
                        Err(DecodeErr::Io)
                    } else {
                        let ct = body.subrange(pos + 8, pos + 8 + len);
                        match expected {
                            Some(e) if encode_utf8(e) != ct => Err(
                                DecodeErr::UnwantedContentType(lossy_text(ct), e),
                            ),
                            _ => spec_start_fields(body, pos + 8 + len, expected),
                        }
                    },
                }
            } else {
                Err(DecodeErr::UnknownFieldsInHeader(field))
            },
        }
    }
}

/// Reads one frame at `pos`; gives the result and the position after it.
///
/// Where the data ends inside a frame, the result is `Io` and the position is the end.
pub open spec fn spec_read_frame(data: Seq<u8>, pos: int, expected: Option<Seq<char>>) -> (Result<FrameV, DecodeErr>, int) {
    match u32_at(data, pos) {
        None => (Err(DecodeErr::Io), data.len() as int),
        Some(ctrl) => if ctrl == CONTROL_ESCAPE {
            match u32_at(data, pos + 4) {
                None => (Err(DecodeErr::Io), data.len() as int),
                Some(frame_length) => if frame_length < 4 {
                    (Err(DecodeErr::InvalidLength), pos + 8)
                } else {
                    match u32_at(data, pos + 8) {
                        None => (Err(DecodeErr::Io), data.len() as int),
                        Some(typ) => if typ == CONTROL_START {
                            let body_len = frame_length - 4;
                            if pos + 12 + body_len > data.len() {
                                (Err(DecodeErr::Io), data.len() as int)
                            } else {
                                let body = data.subrange(pos + 12, pos + 12 + body_len);
                                match spec_start_fields(body, 0, expected) {
                                    Ok(()) => (Ok(FrameV::Start), pos + 12 + body_len),
                                    Err(e) => (Err(e), pos + 12 + body_len),
                                }
                            }
                        } else if typ == CONTROL_STOP {
                            if frame_length != 4 {
                                (Err(DecodeErr::InvalidLength), pos + 12)
                            } else {
                                (Ok(FrameV::Stop), pos + 12)
                            }
                        } else {
                            (Err(DecodeErr::InvalidMagicBytes(typ)), pos + 12)
                        },
                    }
                },
            }
        } else {
            if pos + 4 + ctrl > data.len() {
                (Err(DecodeErr::Io), data.len() as int)
            } else {
                (Ok(FrameV::Content(data.subrange(pos + 4, pos + 4 + ctrl))), pos + 4 + ctrl)
            }
        },
    }
}

/// The next content of the stream, the position after it, and whether a start frame was seen.
///
/// A first start frame is skipped, a second one is an error; a stop frame ends the stream.
pub open spec fn spec_next_content(data: Seq<u8>, pos: int, expected: Option<Seq<char>>, saw_start: bool) -> (
    Option<Result<Seq<u8>, DecodeErr>>,
    int,
    bool,
)
    decreases (if saw_start { 0int } else { 1int }),
{
    let (res, p) = spec_read_frame(data, pos, expected);
    match res {
        Ok(FrameV::Start) => if saw_start {
            (Some(Err(DecodeErr::DuplicateStartFrame)), p, saw_start)
        } else {
            spec_next_content(data, p, expected, true)
        },
        Ok(FrameV::Stop) => (None, p, saw_start),
        Ok(FrameV::Content(c)) => (Some(Ok(c)), p, saw_start),
        Err(e) => (Some(Err(e)), p, saw_start),
    }
}

/// Reads the frames of a Frame Streams data stream held in memory.
pub struct DecoderReader {
    data: Vec<u8>,
    pos: usize,
    content_type: Option<String>,
    saw_start: bool,
}

impl DecoderReader {
    pub closed spec fn data(&self) -> Seq<u8> {
        self.data@
    }

    pub closed spec fn position(&self) -> int {
        self.pos as int
    }

    pub closed spec fn expected_content_type(&self) -> Option<Seq<char>> {
        opt_view(self.content_type)
    }

    pub closed spec fn saw_start(&self) -> bool {
        self.saw_start
    }

    pub closed spec fn wf(&self) -> bool {
        self.pos <= self.data@.len()
    }

    /// A decoder accepting any content type.
    pub fn new(data: Vec<u8>) -> (r: Self)
        ensures
            r.wf(),
            r.data() == data@,
            r.position() == 0,
            r.expected_content_type() is None,
            !r.saw_start(),
    {
        DecoderReader { data, pos: 0, content_type: None, saw_start: false }
    }

    /// A decoder which rejects streams of another content type.
    pub fn with_content_type(data: Vec<u8>, content_type: String) -> (r: Self)
        ensures
            r.wf(),
            r.data() == data@,
            r.position() == 0,
            r.expected_content_type() == Some(content_type@),
            !r.saw_start(),
    {
        DecoderReader { data, pos: 0, content_type: Some(content_type), saw_start: false }
    }

    fn read_u32(&mut self) -> (r: Result<u32, DecodeError>)
        requires
            old(self).wf(),
        ensures
            final(self).wf(),
            final(self).data == old(self).data,
            final(self).content_type == old(self).content_type,
            final(self).saw_start == old(self).saw_start,
            match u32_at(old(self).data@, old(self).pos as int) {
                Some(v) => r == Ok::<u32, DecodeError>(v) && final(self).pos == old(self).pos + 4,
                None => r matches Err(e) && e@ == DecodeErr::Io && final(self).pos == old(self).data@.len(),
            },
    {
        if self.data.len() - self.pos < 4 {
            self.pos = self.data.len();
            return Err(DecodeError::Io);
        }
        let v = read_u32_be(slice_from(&self.data, self.pos));
        assert(self.data@.skip(self.pos as int).subrange(0, 4) =~= self.data@.subrange(self.pos as int, self.pos + 4));
        self.pos = self.pos + 4;
        Ok(v)
    }

    fn read_bytes(&mut self, n: usize) -> (r: Result<Vec<u8>, DecodeError>)
        requires
            old(self).wf(),
        ensures
            final(self).wf(),
            final(self).data == old(self).data,
            final(self).content_type == old(self).content_type,
            final(self).saw_start == old(self).saw_start,
            old(self).pos + n <= old(self).data@.len() ==> (r matches Ok(v) && v@ == old(self).data@.subrange(
                old(self).pos as int,
                old(self).pos + n,
            ) && final(self).pos == old(self).pos + n),
            old(self).pos + n > old(self).data@.len() ==> (r matches Err(e) && e@ == DecodeErr::Io
                && final(self).pos == old(self).data@.len()),
    {
        if self.data.len() - self.pos < n {
            self.pos = self.data.len();
            return Err(DecodeError::Io);
        }
        let out = copy_range(&self.data, self.pos, self.pos + n);
        self.pos = self.pos + n;
        Ok(out)
    }

    /// Reads the next frame.
    pub fn read_frame(&mut self) -> (r: Result<Frame, DecodeError>)
        requires
            old(self).wf(),
        ensures
            final(self).wf(),
            final(self).data() == old(self).data(),
            final(self).expected_content_type() == old(self).expected_content_type(),
            final(self).saw_start() == old(self).saw_start(),
            ({
                let (res, pos) = spec_read_frame(old(self).data(), old(self).position(), old(self).expected_content_type());
                &&& final(self).position() == pos
                &&& match r {
                    Ok(f) => res == Ok::<FrameV, DecodeErr>(f@),
                    Err(e) => res == Err::<FrameV, DecodeErr>(e@),
                }
            }),
    {
        let ctrl = self.read_u32()?;
        if ctrl == CONTROL_ESCAPE {
            self.read_escape_frame()
        } else {
            self.read_content_frame(ctrl as usize)
        }
    }

    /// The next content frame, skipping the first start frame; `None` at a stop frame.
    pub fn next(&mut self) -> (r: Option<Result<Vec<u8>, DecodeError>>)
        requires
            old(self).wf(),
        ensures
            final(self).wf(),
            final(self).data() == old(self).data(),
            final(self).expected_content_type() == old(self).expected_content_type(),
            ({
                let (res, pos, saw) = spec_next_content(
                    old(self).data(),
                    old(self).position(),
                    old(self).expected_content_type(),
                    old(self).saw_start(),
                );
                &&& final(self).position() == pos
                &&& final(self).saw_start() == saw
                &&& match r {
                    None => res is None,
                    Some(Ok(c)) => res == Some(Ok::<Seq<u8>, DecodeErr>(c@)),
                    Some(Err(e)) => res == Some(Err::<Seq<u8>, DecodeErr>(e@)),
                }
            }),
        decreases (if old(self).saw_start() { 0int } else { 1int }),
    {
        match self.read_frame() {
            Ok(Frame::Start) => {
                if self.saw_start {
                    Some(Err(DecodeError::DuplicateStartFrame))
                } else {
                    self.saw_start = true;
                    self.next()
                }
            },
            Ok(Frame::Stop) => None,
            Ok(Frame::Content(content)) => Some(Ok(content)),
            Err(err) => Some(Err(err)),
        }
    }

    fn read_escape_frame(&mut self) -> (r: Result<Frame, DecodeError>)
        requires
            old(self).wf(),
            old(self).pos >= 4,
            u32_at(old(self).data@, old(self).pos - 4) == Some(CONTROL_ESCAPE),
        ensures
            final(self).wf(),
            final(self).data == old(self).data,
            final(self).content_type == old(self).content_type,
            final(self).saw_start == old(self).saw_start,
            ({
                let (res, pos) = spec_read_frame(old(self).data(), old(self).position() - 4, old(self).expected_content_type());
                &&& final(self).position() == pos
                &&& match r {
                    Ok(f) => res == Ok::<FrameV, DecodeErr>(f@),
                    Err(e) => res == Err::<FrameV, DecodeErr>(e@),
                }
            }),
    {
        let frame_length = self.read_u32()?;
        if frame_length < 4 {
            return Err(DecodeError::InvalidLength);
        }
        let typ = self.read_u32()?;
        if typ == CONTROL_START {
            self.read_start_frame(frame_length as usize)
        } else if typ == CONTROL_STOP {
            self.read_stop_frame(frame_length as usize)
        } else {
            Err(DecodeError::InvalidMagicBytes { magic_bytes: typ })
        }
    }

    fn read_start_frame(&mut self, frame_length: usize) -> (r: Result<Frame, DecodeError>)
        requires
            old(self).wf(),
            frame_length >= 4,
        ensures
            final(self).wf(),
            final(self).data == old(self).data,
            final(self).content_type == old(self).content_type,
            final(self).saw_start == old(self).saw_start,
            ({
                let body_len = frame_length - 4;
                if old(self).pos + body_len > old(self).data@.len() {
                    final(self).position() == old(self).data@.len() && (r matches Err(e) && e@ == DecodeErr::Io)
                } else {
                    &&& final(self).position() == old(self).pos + body_len
                    &&& match spec_start_fields(old(self).data@.subrange(old(self).pos as int, old(self).pos + body_len), 0, old(self).expected_content_type()) {
                        Ok(()) => r matches Ok(f) && f@ == FrameV::Start,
                        Err(e) => r matches Err(e2) && e2@ == e,
                    }
                }
            }),
    {
        let body = self.read_bytes(frame_length - 4)?;
        check_start_fields(&body, &self.content_type)?;
        Ok(Frame::Start)
    }

    fn read_stop_frame(&mut self, frame_length: usize) -> (r: Result<Frame, DecodeError>)
        ensures
            *final(self) == *old(self),
            frame_length != 4 ==> (r matches Err(e) && e@ == DecodeErr::InvalidLength),
            frame_length == 4 ==> (r matches Ok(f) && f@ == FrameV::Stop),
    {
        if frame_length != 4 {
            Err(DecodeError::InvalidLength)
        } else {
            Ok(Frame::Stop)
        }
    }

    fn read_content_frame(&mut self, frame_length: usize) -> (r: Result<Frame, DecodeError>)
        requires
            old(self).wf(),
        ensures
            final(self).wf(),
            final(self).data == old(self).data,
            final(self).content_type == old(self).content_type,
            final(self).saw_start == old(self).saw_start,
            old(self).pos + frame_length <= old(self).data@.len() ==> (r matches Ok(f) && f@ == FrameV::Content(
                old(self).data@.subrange(old(self).pos as int, old(self).pos + frame_length),
            ) && final(self).pos == old(self).pos + frame_length),
            old(self).pos + frame_length > old(self).data@.len() ==> (r matches Err(e) && e@ == DecodeErr::Io
                && final(self).pos == old(self).data@.len()),
    {
        let buffer = self.read_bytes(frame_length)?;
        Ok(Frame::Content(buffer))
    }
}

fn copy_range(v: &Vec<u8>, start: usize, end: usize) -> (r: Vec<u8>)
    requires
        start <= end <= v@.len(),
    ensures
        r@ == v@.subrange(start as int, end as int),
{
    let mut out: Vec<u8> = Vec::new();
    let mut i: usize = start;
    while i < end
        invariant
            start <= i <= end,
            end <= v@.len(),
            out@ == v@.subrange(start as int, i as int),
        decreases end - i,
    {
        out.push(v[i]);
        i = i + 1;
        assert(out@ =~= v@.subrange(start as int, i as int));
    }
    out
}

/// Checks the fields of a start frame body against the expected content type.
fn check_start_fields(body: &Vec<u8>, content_type: &Option<String>) -> (r: Result<(), DecodeError>)
    ensures
        match spec_start_fields(body@, 0, opt_view(*content_type)) {
            Ok(()) => r is Ok,
            Err(e) => r matches Err(e2) && e2@ == e,
        },
{
    let ghost expected = opt_view(*content_type);
    let mut p: usize = 0;
    while p < body.len()
        invariant
            p <= body@.len(),
            expected == opt_view(*content_type),
            spec_start_fields(body@, 0, expected) == spec_start_fields(body@, p as int, expected),
        decreases body@.len() - p,
    {
        if body.len() - p < 4 {
            return Err(DecodeError::Io);
        }
        let field = read_u32_be(slice_from(body, p));
        assert(body@.skip(p as int).subrange(0, 4) =~= body@.subrange(p as int, p + 4));
        if field != CONTROL_FIELD_CONTENT_TYPE {
            return Err(DecodeError::UnknownFieldsInHeader { magic_bytes: field });
        }
        if body.len() - p - 4 < 4 {
            return Err(DecodeError::Io);
        }
        let len = read_u32_be(slice_from(body, p + 4));
        assert(body@.skip(p + 4).subrange(0, 4) =~= body@.subrange(p + 4, p + 8));
        if (body.len() - p - 8) < len as usize {
            return Err(DecodeError::Io);
        }
        let start = p + 8;
        let end = p + 8 + len as usize;
        match content_type {
            Some(expected_ct) => {
                let eb = expected_ct.as_str().as_bytes();
                if !bytes_equal(eb, body, start, end) {
                    let got = from_utf8_lossy(subslice(body, start, end));
                    return Err(DecodeError::UnwantedContentType { got, expected: expected_ct.clone() });
                }
            },
            None => {},
        }
        p = end;
    }
    Ok(())
}

pub open spec fn opt_view(o: Option<String>) -> Option<Seq<char>> {
    match o {
        Some(s) => Some(s@),
        None => None,
    }
}

fn slice_from(v: &Vec<u8>, start: usize) -> (r: &[u8])
    requires
        start <= v@.len(),
    ensures
        r@ == v@.skip(start as int),
{
    let (_, rest) = v.as_slice().split_at(start);
    rest
}

fn subslice(v: &Vec<u8>, start: usize, end: usize) -> (r: &[u8])
    requires
        start <= end <= v@.len(),
    ensures
        r@ == v@.subrange(start as int, end as int),
{
    let (head, _) = v.as_slice().split_at(end);
    let (_, mid) = head.split_at(start);
    mid
}

fn bytes_equal(a: &[u8], v: &Vec<u8>, start: usize, end: usize) -> (r: bool)
    requires
        start <= end <= v@.len(),
    ensures
        r == (a@ == v@.subrange(start as int, end as int)),
{
    if a.len() != end - start {
        return false;
    }
    let mut i: usize = 0;
    while i < a.len()
        invariant
            i <= a@.len(),
            a@.len() == end - start,
            end <= v@.len(),
            forall|j: int| 0 <= j < i ==> a@[j] == v@[start + j],
        decreases a@.len() - i,
    {
        if a[i] != v[start + i] {
            assert(a@[i as int] != v@.subrange(start as int, end as int)[i as int]);
            return false;
        }
        i = i + 1;
    }
    assert(a@ =~= v@.subrange(start as int, end as int));
    true
}

} // verus!
