//! Decoder for the RFID reader's binary wire protocol.
use bytes::{Buf, BytesMut};
use vstd::prelude::*;

verus! {

/// First byte of every frame.
pub const MAGIC_FIRST: u8 = 0x43;

/// Second byte of every frame.
pub const MAGIC_SECOND: u8 = 0x54;

/// Header size: the magic bytes and the length field.
pub const HEADER_SIZE: usize = 4;

/// Command byte of an active tag report.
pub const CMD_ACTIVE_DATA: u8 = 0x45;

/// Bytes of a device serial number in an active tag report.
pub const DEV_SN_LEN: usize = 7;

/// Bytes of a tag record that are not the tag id: length, type, antenna and
/// signal strength.
pub const TAG_FIXED_BYTES: u8 = 3;

/// One decoded protocol message.
#[derive(Debug, PartialEq)]
pub struct Frame {
    pub cmd: Cmd,
    pub addr: u8,
    pub status: Status,
}

/// One RFID read inside a frame.
#[derive(Debug, PartialEq)]
pub struct Tag {
    pub tag_type: u8,
    pub ant2: u8,
    pub rssi: u8,
    pub tag_id: Vec<u8>,
}

/// The command a frame carries.
#[derive(Debug, PartialEq)]
pub enum Cmd {
    ActiveData { dev_sn: [u8; 7], tags: Vec<Tag> },
    UnknownCommand(u8),
}

/// Status byte of a frame: `1` is success, anything else a failure.
#[derive(Debug, Clone, Copy, PartialEq, Eq, Structural)]
pub enum Status {
    Fail,
    Success,
}

/// Why a decode step or a device session failed.
#[derive(Debug, Clone, PartialEq)]
pub enum Error {
    InvalidHeader,
    WrongChecksum { received: u8, expected: u8 },
    Eof,
    IOError(String),
    ParseError,
}

/// Mathematical value of a [`Tag`].
pub struct TagView {
    pub tag_type: u8,
    pub ant2: u8,
    pub rssi: u8,
    pub tag_id: Seq<u8>,
}

/// Mathematical value of a [`Cmd`].
pub enum CmdView {
    ActiveData { dev_sn: Seq<u8>, tags: Seq<TagView> },
    UnknownCommand(u8),
}

/// Mathematical value of a [`Frame`].
pub struct FrameView {
    pub cmd: CmdView,
    pub addr: u8,
    pub status: Status,
}

impl View for Tag {
    type V = TagView;

    open spec fn view(&self) -> TagView {
        TagView { tag_type: self.tag_type, ant2: self.ant2, rssi: self.rssi, tag_id: self.tag_id@ }
    }
}

impl View for Cmd {
    type V = CmdView;

    open spec fn view(&self) -> CmdView {
        match self {
            Cmd::ActiveData { dev_sn, tags } => CmdView::ActiveData {
                dev_sn: dev_sn@,
                tags: tags@.map_values(|t: Tag| t@),
            },
            Cmd::UnknownCommand(c) => CmdView::UnknownCommand(*c),
        }
    }
}

impl View for Frame {
    type V = FrameView;

    open spec fn view(&self) -> FrameView {
        FrameView { cmd: self.cmd@, addr: self.addr, status: self.status }
    }
}

/// One tag record at the start of `s`: the tag and the bytes it takes.
pub open spec fn parse_tag_spec(s: Seq<u8>) -> Option<(TagView, nat)> {
    if s.len() < 3 || s[0] < TAG_FIXED_BYTES {
        None
    } else {
        let id_len: int = s[0] - TAG_FIXED_BYTES;
        if s.len() < 4 + id_len {
            None
        } else {
            Some(
                (
                    TagView {
                        tag_type: s[1],
                        ant2: s[2],
                        tag_id: s.subrange(3, 3 + id_len),
                        rssi: s[3 + id_len],
                    },
                    (4 + id_len) as nat,
                ),
            )
        }
    }
}

/// `count` consecutive tag records at the start of `s`, and the bytes they take.
pub open spec fn parse_tags_spec(s: Seq<u8>, count: nat) -> Option<(Seq<TagView>, nat)>
    decreases count,
{
    if count == 0 {
        Some((Seq::empty(), 0))
    } else {
        match parse_tag_spec(s) {
            None => None,
            Some((t, n)) => match parse_tags_spec(s.skip(n as int), (count - 1) as nat) {
                None => None,
                Some((rest, m)) => Some((seq![t] + rest, n + m)),
            },
        }
    }
}

/// The body of an active tag report: device serial, tag count, tag records.
pub open spec fn parse_active_data_spec(s: Seq<u8>) -> Option<CmdView> {
    if s.len() < DEV_SN_LEN + 1 {
        None
    } else {
        match parse_tags_spec(s.skip(DEV_SN_LEN + 1), s[DEV_SN_LEN as int] as nat) {
            None => None,
            Some((tags, _)) => Some(
                CmdView::ActiveData { dev_sn: s.subrange(0, DEV_SN_LEN as int), tags },
            ),
        }
    }
}

/// Status byte to status.
pub open spec fn status_of(b: u8) -> Status {
    if b == 1 {
        Status::Success
    } else {
        Status::Fail
    }
}

/// The frame that a checked payload (address, command, status, command
/// payload) holds; trailing bytes are ignored.
pub open spec fn parse_spec(p: Seq<u8>) -> Option<FrameView> {
    if p.len() < 3 {
        None
    } else if p[1] == CMD_ACTIVE_DATA {
        match parse_active_data_spec(p.skip(3)) {
            None => None,
            Some(cmd) => Some(FrameView { cmd, addr: p[0], status: status_of(p[2]) }),
        }
    } else {
        Some(FrameView { cmd: CmdView::UnknownCommand(p[1]), addr: p[0], status: status_of(p[2]) })
    }
}

/// Sum of all bytes, without wrapping.
pub open spec fn byte_sum(data: Seq<u8>) -> nat
    decreases data.len(),
{
    if data.len() == 0 {
        0
    } else {
        byte_sum(data.drop_last()) + data.last() as nat
    }
}

/// The two's-complement negation of the modular byte sum.
pub open spec fn checksum_of(data: Seq<u8>) -> u8 {
    ((256 - byte_sum(data) % 256) % 256) as u8
}

/// Checksum of a frame's bytes: the negated modular byte sum.
pub fn checksum(data: &[u8]) -> (r: u8)
    ensures
        r == checksum_of(data@),
{
    let mut sum: u8 = 0;
    let mut i: usize = 0;
    while i < data.len()
        invariant
            i <= data@.len(),
            sum == byte_sum(data@.subrange(0, i as int)) % 256,
        decreases data@.len() - i,
    {
        proof {
            let s = data@.subrange(0, i as int + 1);
            assert(s.drop_last() =~= data@.subrange(0, i as int));
        }
        sum = sum.wrapping_add(data[i]);
        i = i + 1;
    }
    assert(data@.subrange(0, data@.len() as int) =~= data@);
    let r = (!sum).wrapping_add(1);
    assert((!sum) as int == 255 - sum as int) by (bit_vector);
    r
}

/// Big-endian value of the length field of a buffer that holds a header.
pub open spec fn frame_len_spec(s: Seq<u8>) -> nat {
    s[2] as nat * 256 + s[3] as nat
}

/// The payload between header and checksum of a whole frame, provided its last
/// byte is the checksum of the bytes before it.
pub open spec fn checked_payload_spec(frame: Seq<u8>) -> Result<Seq<u8>, Error> {
    let received = frame.last();
    let expected = checksum_of(frame.drop_last());
    if received != expected {
        Err(Error::WrongChecksum { received, expected })
    } else if frame.len() < HEADER_SIZE + 1 {
        Err(Error::ParseError)
    } else {
        Ok(frame.subrange(HEADER_SIZE as int, frame.len() - 1))
    }
}

/// What a whole frame decodes to.
pub open spec fn frame_outcome_spec(frame: Seq<u8>) -> Result<Option<FrameView>, Error> {
    match checked_payload_spec(frame) {
        Err(e) => Err(e),
        Ok(p) => match parse_spec(p) {
            None => Err(Error::ParseError),
            Some(f) => Ok(Some(f)),
        },
    }
}

/// One decode step on the buffered bytes `s`: how many bytes it consumes, and
/// what it reports (`Ok(None)`: more bytes are needed).
pub open spec fn decode_spec(s: Seq<u8>) -> (nat, Result<Option<FrameView>, Error>) {
    if s.len() < 2 {
        (0, Ok(None))
    } else if s[0] != MAGIC_FIRST || s[1] != MAGIC_SECOND {
        (1, Err(Error::InvalidHeader))
    } else if s.len() < HEADER_SIZE {
        (0, Ok(None))
    } else if s.len() < HEADER_SIZE + frame_len_spec(s) {
        (0, Ok(None))
    } else {
        let total = HEADER_SIZE + frame_len_spec(s);
        (total as nat, frame_outcome_spec(s.subrange(0, total)))
    }
}

/// Mathematical value of a decode result.
pub open spec fn outcome_view(r: Result<Option<Frame>, Error>) -> Result<Option<FrameView>, Error> {
    match r {
        Ok(Some(f)) => Ok(Some(f@)),
        Ok(None) => Ok(None),
        Err(e) => Err(e),
    }
}

/// A whole frame: magic bytes, a length field that counts at least the
/// checksum byte, and exactly as many bytes after the header as it says.
pub open spec fn is_framed(frame: Seq<u8>) -> bool {
    &&& frame.len() >= HEADER_SIZE
    &&& frame[0] == MAGIC_FIRST
    &&& frame[1] == MAGIC_SECOND
    &&& frame_len_spec(frame) >= 1
    &&& frame.len() == HEADER_SIZE + frame_len_spec(frame)
}

/// A whole frame whose last byte is the checksum of the bytes before it.
pub open spec fn is_valid_frame(frame: Seq<u8>) -> bool {
    is_framed(frame) && frame.last() == checksum_of(frame.drop_last())
}

/// Fewer bytes than a header, and, once two bytes are there, the magic
/// bytes: the step reports that more bytes are needed and consumes nothing.
pub proof fn lemma_short_buffer_incomplete(s: Seq<u8>)
    requires
        s.len() < HEADER_SIZE,
        s.len() >= 2 ==> s[0] == MAGIC_FIRST && s[1] == MAGIC_SECOND,
    ensures
        decode_spec(s) == (0nat, Ok::<Option<FrameView>, Error>(None)),
{
}

/// A buffer whose first two bytes are not the magic bytes: the step consumes
/// exactly one byte and reports a header error.
pub proof fn lemma_bad_magic_skips_one_byte(s: Seq<u8>)
    requires
        s.len() >= 2,
        s[0] != MAGIC_FIRST || s[1] != MAGIC_SECOND,
    ensures
        decode_spec(s) == (1nat, Err::<Option<FrameView>, Error>(Error::InvalidHeader)),
{
}

/// A valid frame whose last byte is replaced by another value, followed by
/// any bytes: the step consumes the whole frame and reports the byte received
/// and the checksum expected.
pub proof fn lemma_tampered_frame_rejected(frame: Seq<u8>, b: u8, rest: Seq<u8>)
    requires
        is_valid_frame(frame),
        b != frame.last(),
    ensures
        ({
            let tampered = frame.update(frame.len() - 1, b);
            decode_spec(tampered + rest) == (
                frame.len(),
                Err::<Option<FrameView>, Error>(
                    Error::WrongChecksum { received: b, expected: frame.last() },
                ),
            )
        }),
{
    let tampered = frame.update(frame.len() - 1, b);
    let s = tampered + rest;
    assert(s.subrange(0, frame.len() as int) =~= tampered);
    assert(tampered.drop_last() =~= frame.drop_last());
}

/// A valid frame with a command byte other than the active tag report,
/// followed by any bytes: the step yields the unknown command with the
/// frame's address and status, consumes exactly the frame, and leaves the
/// following bytes as they were.
pub proof fn lemma_unknown_command_frame(frame: Seq<u8>, rest: Seq<u8>)
    requires
        is_valid_frame(frame),
        frame.len() >= HEADER_SIZE + 4,
        frame[5] != CMD_ACTIVE_DATA,
    ensures
        decode_spec(frame + rest) == (
            frame.len(),
            Ok::<Option<FrameView>, Error>(
                Some(
                    FrameView {
                        cmd: CmdView::UnknownCommand(frame[5]),
                        addr: frame[4],
                        status: status_of(frame[6]),
                    },
                ),
            ),
        ),
        (frame + rest).skip(frame.len() as int) == rest,
{
    let s = frame + rest;
    assert(s.subrange(0, frame.len() as int) =~= frame);
    assert(s.skip(frame.len() as int) =~= rest);
    let p = frame.subrange(HEADER_SIZE as int, frame.len() - 1);
    assert(p[0] == frame[4] && p[1] == frame[5] && p[2] == frame[6]);
}

fn parse_tag(input: &[u8], pos: usize) -> (r: Option<(Tag, usize)>)
    requires
        pos <= input@.len(),
    ensures
        match parse_tag_spec(input@.skip(pos as int)) {
            None => r is None,
            Some((t, n)) => r matches Some((tag, next)) && tag@ == t && next == pos + n,
        },
{
    let len = input.len();
    if len - pos < 3 {
        return None;
    }
    let tag_length = input[pos];
    let tag_type = input[pos + 1];
    let ant2 = input[pos + 2];
    if tag_length < TAG_FIXED_BYTES {
        return None;
    }
    let id_len = (tag_length - TAG_FIXED_BYTES) as usize;
    if len - pos - 3 < id_len + 1 {
        return None;
    }
    let start = pos + 3;
    let mut tag_id: Vec<u8> = Vec::new();
    let mut i: usize = 0;
    while i < id_len
        invariant
            start + id_len < input@.len(),
            input@.len() <= usize::MAX,
            i <= id_len,
            tag_id@ == input@.subrange(start as int, start + i),
        decreases id_len - i,
    {
        tag_id.push(input[start + i]);
        i = i + 1;
    }
    let rssi = input[start + id_len];
    let tag = Tag { tag_type, ant2, rssi, tag_id };
    proof {
        let s = input@.skip(pos as int);
        assert(s.subrange(3, 3 + id_len) =~= tag_id@);
    }
    Some((tag, start + id_len + 1))
}

fn parse_tags(input: &[u8], pos: usize, count: u8) -> (r: Option<(Vec<Tag>, usize)>)
    requires
        pos <= input@.len(),
    ensures
        match parse_tags_spec(input@.skip(pos as int), count as nat) {
            None => r is None,
            Some((ts, n)) => r matches Some((tags, next)) && tags@.map_values(|t: Tag| t@) == ts
                && next == pos + n,
        },
{
    let mut tags: Vec<Tag> = Vec::new();
    let mut p = pos;
    let mut k: u8 = 0;
    while k < count
        invariant
            pos <= p <= input@.len(),
            k <= count,
            parse_tags_spec(input@.skip(pos as int), count as nat) == match parse_tags_spec(
                input@.skip(p as int),
                (count - k) as nat,
            ) {
                None => None,
                Some((rest, m)) => Some(
                    (tags@.map_values(|t: Tag| t@) + rest, (p - pos) as nat + m),
                ),
            },
        decreases count - k,
    {
        let ghost before = tags@;
        match parse_tag(input, p) {
            None => {
                return None;
            },
            Some((tag, next)) => {
                proof {
                    let s = input@.skip(p as int);
                    assert(s.skip(next - p) =~= input@.skip(next as int));
                }
                tags.push(tag);
                proof {
                    assert(tags@.map_values(|t: Tag| t@) =~= before.map_values(|t: Tag| t@)
                        + seq![tags@.last()@]);
                }
                p = next;
                k = k + 1;
            },
        }
    }
    proof {
        assert(tags@.map_values(|t: Tag| t@) + Seq::<TagView>::empty() =~= tags@.map_values(
            |t: Tag| t@,
        ));
    }
    Some((tags, p))
}

fn parse_active_data(input: &[u8], pos: usize) -> (r: Option<Cmd>)
    requires
        pos <= input@.len(),
    ensures
        match parse_active_data_spec(input@.skip(pos as int)) {
            None => r is None,
            Some(c) => r matches Some(cmd) && cmd@ == c,
        },
{
    if input.len() - pos < DEV_SN_LEN + 1 {
        return None;
    }
    let dev_sn: [u8; 7] = [
        input[pos],
        input[pos + 1],
        input[pos + 2],
        input[pos + 3],
        input[pos + 4],
        input[pos + 5],
        input[pos + 6],
    ];
    let tag_number = input[pos + DEV_SN_LEN];
    proof {
        assert(input@.skip(pos as int).skip(DEV_SN_LEN + 1) =~= input@.skip(
            pos + DEV_SN_LEN + 1,
        ));
        assert(dev_sn@ =~= input@.skip(pos as int).subrange(0, DEV_SN_LEN as int));
    }
    match parse_tags(input, pos + DEV_SN_LEN + 1, tag_number) {
        None => None,
        Some((tags, _)) => Some(Cmd::ActiveData { dev_sn, tags }),
    }
}

fn parse(input: &[u8], pos: usize) -> (r: Option<Frame>)
    requires
        pos <= input@.len(),
    ensures
        match parse_spec(input@.skip(pos as int)) {
            None => r is None,
            Some(f) => r matches Some(frame) && frame@ == f,
        },
{
    if input.len() - pos < 3 {
        return None;
    }
    let addr = input[pos];
    let cmd = input[pos + 1];
    let status = if input[pos + 2] == 1 {
        Status::Success
    } else {
        Status::Fail
    };
    proof {
        assert(input@.skip(pos as int).skip(3) =~= input@.skip(pos + 3));
    }
    let cmd = if cmd == CMD_ACTIVE_DATA {
        match parse_active_data(input, pos + 3) {
            None => {
                return None;
            },
            Some(c) => c,
        }
    } else {
        Cmd::UnknownCommand(cmd)
    };
    Some(Frame { cmd, addr, status })
}

/// Decoder state of one device stream; the protocol itself keeps none.
pub struct RFIDProtocol;

impl RFIDProtocol {
    /// The payload of a frame whose checksum is right.
    pub fn payload_with_valid_crc<'a>(&self, frame: &'a [u8]) -> (r: Result<&'a [u8], Error>)
        requires
            frame@.len() >= 1,
        ensures
            match checked_payload_spec(frame@) {
                Ok(p) => r matches Ok(q) && q@ == p,
                Err(e) => r == Err::<&[u8], Error>(e),
            },
    {
        let last = frame.len() - 1;
        let received_crc = frame[last];
        let body = vstd::slice::slice_subrange(frame, 0, last);
        assert(body@ =~= frame@.drop_last());
        let calculated_crc = checksum(body);
        if received_crc != calculated_crc {
            Err(Error::WrongChecksum { received: received_crc, expected: calculated_crc })
        } else if last < HEADER_SIZE {
            Err(Error::ParseError)
        } else {
            Ok(vstd::slice::slice_subrange(frame, HEADER_SIZE, last))
        }
    }

    /// Checks and parses one whole frame.
    pub fn parse_frame(&mut self, frame: &[u8]) -> (r: Result<Frame, Error>)
        requires
            frame@.len() >= 1,
        ensures
            match frame_outcome_spec(frame@) {
                Ok(Some(f)) => r matches Ok(g) && g@ == f,
                Err(e) => r == Err::<Frame, Error>(e),
                Ok(None) => false,
            },
    {
        let payload = match self.payload_with_valid_crc(frame) {
            Ok(p) => p,
            Err(e) => {
                return Err(e);
            },
        };
        assert(payload@.skip(0) =~= payload@);
        match parse(payload, 0) {
            Some(f) => Ok(f),
            None => Err(Error::ParseError),
        }
    }

    /// One decode step on a slice of buffered bytes: how many bytes from its
    /// front the step consumes, and what it reports.
    pub fn decode_prefix(&mut self, buf: &[u8]) -> (r: (usize, Result<Option<Frame>, Error>))
        ensures
            (r.0 as nat, outcome_view(r.1)) == decode_spec(buf@),
    {
        let n = buf.len();
        if n < 2 {
            return (0, Ok(None));
        }
        if buf[0] != MAGIC_FIRST || buf[1] != MAGIC_SECOND {
            return (1, Err(Error::InvalidHeader));
        }
        if n < HEADER_SIZE {
            return (0, Ok(None));
        }
        let len = buf[2] as usize * 256 + buf[3] as usize;
        let total = HEADER_SIZE + len;
        if n < total {
            return (0, Ok(None));
        }
        let frame = vstd::slice::slice_subrange(buf, 0, total);
        let resp = match self.parse_frame(frame) {
            Ok(f) => Ok(Some(f)),
            Err(e) => Err(e),
        };
        (total, resp)
    }

    /// One decode step on a device's receive buffer: removes the bytes the step
    /// consumes from its front and reports what they held.
    pub fn decode(&mut self, src: &mut BytesMut) -> (r: Result<Option<Frame>, Error>)
        ensures
            outcome_view(r) == decode_spec(buffered(*old(src))).1,
            buffered(*final(src)) == buffered(*old(src)).skip(
                decode_spec(buffered(*old(src))).0 as int,
            ),
    {
        let (consumed, resp) = self.decode_prefix(buffered_bytes(src));
        advance_buffer(src, consumed);
        resp
    }
}

/// `bytes::BytesMut`, a device's receive buffer, held opaque.
#[verifier::external_type_specification]
#[verifier::external_body]
pub struct ExBytesMut(BytesMut);

/// The bytes a receive buffer holds, front first.
pub uninterp spec fn buffered(b: BytesMut) -> Seq<u8>;

/// Relies on `BytesMut::as_ref`: a slice of exactly the bytes the buffer holds.
#[verifier::external_body]
fn buffered_bytes(b: &BytesMut) -> (r: &[u8])
    ensures
        r@ == buffered(*b),
{
    b.as_ref()
}

/// Relies on `Buf::advance` for `BytesMut`: drops `n` bytes from the front;
/// it panics when `n` exceeds what is held.
#[verifier::external_body]
fn advance_buffer(b: &mut BytesMut, n: usize)
    requires
        n <= buffered(*old(b)).len(),
    ensures
        buffered(*final(b)) == buffered(*old(b)).skip(n as int),
{
    b.advance(n)
}

} // verus!
