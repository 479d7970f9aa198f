use vstd::prelude::*;
use crate::crc::{crc16_gridpulse, spec_crc16};
use crate::cursor::{ByteCursor, spec_read_u8, spec_read_u16, spec_take, spec_remaining};
use crate::error::{GridError, view_res};

verus! {

/// First byte of every frame (`G`).
pub const MAGIC_G: u8 = 0x47;
/// Second byte of every frame (`P`).
pub const MAGIC_P: u8 = 0x50;
pub const VERSION: u8 = 1;
pub const FLAG_CRC_PRESENT: u8 = 0x01;
pub const FLAG_FRAGMENT: u8 = 0x02;
pub const FLAG_CONTROL: u8 = 0x04;
pub const FLAG_PRIORITY: u8 = 0x08;
pub const MAX_PAYLOAD: usize = 4096;
/// A stream yields at most this many frames plus one.
pub const MAX_FRAMES: usize = 1024;

#[derive(Debug, Clone, Copy, PartialEq, Eq, Structural)]
pub enum FrameKind {
    Hello,
    Template,
    Reading,
    Route,
    Script,
    Ack,
    Clock,
    Unknown(u8),
}

/// The kind a wire byte names.
pub open spec fn kind_of(byte: u8) -> FrameKind {
    if byte == 1 {
        FrameKind::Hello
    } else if byte == 2 {
        FrameKind::Template
    } else if byte == 3 {
        FrameKind::Reading
    } else if byte == 4 {
        FrameKind::Route
    } else if byte == 5 {
        FrameKind::Script
    } else if byte == 6 {
        FrameKind::Ack
    } else if byte == 7 {
        FrameKind::Clock
    } else {
        FrameKind::Unknown(byte)
    }
}

/// The wire byte of a kind.
pub open spec fn kind_byte(kind: FrameKind) -> u8 {
    match kind {
        FrameKind::Hello => 1,
        FrameKind::Template => 2,
        FrameKind::Reading => 3,
        FrameKind::Route => 4,
        FrameKind::Script => 5,
        FrameKind::Ack => 6,
        FrameKind::Clock => 7,
        FrameKind::Unknown(b) => b,
    }
}

impl FrameKind {
    pub fn from_byte(byte: u8) -> (k: Self)
        ensures
            k == kind_of(byte),
    {
        match byte {
            0x01 => FrameKind::Hello,
            0x02 => FrameKind::Template,
            0x03 => FrameKind::Reading,
            0x04 => FrameKind::Route,
            0x05 => FrameKind::Script,
            0x06 => FrameKind::Ack,
            0x07 => FrameKind::Clock,
            other => FrameKind::Unknown(other),
        }
    }

    pub fn as_byte(self) -> (b: u8)
        ensures
            b == kind_byte(self),
    {
        match self {
            FrameKind::Hello => 0x01,
            FrameKind::Template => 0x02,
            FrameKind::Reading => 0x03,
            FrameKind::Route => 0x04,
            FrameKind::Script => 0x05,
            FrameKind::Ack => 0x06,
            FrameKind::Clock => 0x07,
            FrameKind::Unknown(other) => other,
        }
    }
}

/// Reading a byte and naming its kind gives the byte back.
pub proof fn law_kind_byte_roundtrip(byte: u8)
    ensures
        kind_byte(kind_of(byte)) == byte,
{
}

/// A kind survives the trip through its byte unless it is an `Unknown`
/// that carries the byte of a named kind.
pub proof fn law_kind_roundtrip(kind: FrameKind)
    ensures
        (kind_of(kind_byte(kind)) == kind) <==> !(kind is Unknown && 1 <= kind->0 <= 7),
{
}

#[derive(Debug, Clone)]
pub struct Frame {
    pub flags: u8,
    pub session_id: u16,
    pub sequence: u16,
    pub fragment_index: u8,
    pub fragment_count: u8,
    pub kind: FrameKind,
    pub payload: Vec<u8>,
    pub header_crc: Option<u16>,
    pub offset: usize,
}

/// A frame with its payload as a sequence.
pub struct FrameView {
    pub flags: u8,
    pub session_id: u16,
    pub sequence: u16,
    pub fragment_index: u8,
    pub fragment_count: u8,
    pub kind: FrameKind,
    pub payload: Seq<u8>,
    pub header_crc: Option<u16>,
    pub offset: usize,
}

impl View for Frame {
    type V = FrameView;

    open spec fn view(&self) -> FrameView {
        FrameView {
            flags: self.flags,
            session_id: self.session_id,
            sequence: self.sequence,
            fragment_index: self.fragment_index,
            fragment_count: self.fragment_count,
            kind: self.kind,
            payload: self.payload@,
            header_crc: self.header_crc,
            offset: self.offset,
        }
    }
}

/// A frame belongs to a fragmented message when its flag says so or it
/// announces more than one fragment.
pub open spec fn fragmented(f: FrameView) -> bool {
    f.flags & FLAG_FRAGMENT != 0 || f.fragment_count > 1
}

/// The frame that carries a whole reassembled payload.
pub open spec fn with_payload_view(f: FrameView, payload: Seq<u8>) -> FrameView {
    FrameView {
        payload,
        flags: f.flags & !FLAG_FRAGMENT,
        fragment_index: 0,
        fragment_count: 1,
        ..f
    }
}

impl Frame {
    pub fn is_fragmented(&self) -> (b: bool)
        ensures
            b == fragmented(self@),
    {
        self.flags & FLAG_FRAGMENT != 0 || self.fragment_count > 1
    }

    pub fn with_payload(self, payload: Vec<u8>) -> (f: Self)
        ensures
            f@ == with_payload_view(self@, payload@),
            !fragmented(f@),
    {
        let mut f = self;
        let old_flags = f.flags;
        f.payload = payload;
        f.flags = old_flags & !FLAG_FRAGMENT;
        f.fragment_index = 0;
        f.fragment_count = 1;
        assert((old_flags & !0x02u8) & 0x02u8 == 0) by (bit_vector);
        f
    }

    pub fn summary_payload_len(&self) -> (n: usize)
        ensures
            n == self.payload@.len(),
    {
        self.payload.len()
    }
}

/// The header fields that precede the payload.
pub struct FrameHeader {
    pub flags: u8,
    pub session_id: u16,
    pub sequence: u16,
    pub fragment_index: u8,
    pub fragment_count: u8,
    pub kind: FrameKind,
    pub declared_len: u16,
}

/// Fields after the version byte: flags, session, sequence, fragment
/// index and count, kind byte and the declared payload length.
pub open spec fn spec_header_fields(d: Seq<u8>, p: int) -> (Result<FrameHeader, GridError>, int) {
    let (r, p) = spec_read_u8(d, p);
    match r {
        Err(e) => (Err(e), p),
        Ok(flags) => {
            let (r, p) = spec_read_u16(d, p);
            match r {
                Err(e) => (Err(e), p),
                Ok(session_id) => {
                    let (r, p) = spec_read_u16(d, p);
                    match r {
                        Err(e) => (Err(e), p),
                        Ok(sequence) => {
                            let (r, p) = spec_read_u8(d, p);
                            match r {
                                Err(e) => (Err(e), p),
                                Ok(fragment_index) => {
                                    let (r, p) = spec_read_u8(d, p);
                                    match r {
                                        Err(e) => (Err(e), p),
                                        Ok(fragment_count) => {
                                            let (r, p) = spec_read_u8(d, p);
                                            match r {
                                                Err(e) => (Err(e), p),
                                                Ok(kb) => {
                                                    let (r, p) = spec_read_u16(d, p);
                                                    match r {
                                                        Err(e) => (Err(e), p),
                                                        Ok(declared_len) => (Ok(FrameHeader {
                                                            flags,
                                                            session_id,
                                                            sequence,
                                                            fragment_index,
                                                            fragment_count,
                                                            kind: kind_of(kb),
                                                            declared_len,
                                                        }), p),
                                                    }
                                                },
                                            }
                                        },
                                    }
                                },
                            }
                        },
                    }
                },
            }
        },
    }
}

/// What follows the header: the optional CRC, the payload, and the checks
/// on the CRC and on the fragment numbering.
pub open spec fn spec_frame_body(d: Seq<u8>, p: int, h: FrameHeader, offset: int) -> (Result<FrameView, GridError>, int) {
    if h.declared_len > MAX_PAYLOAD {
        (Err(GridError::InvalidLength { declared: h.declared_len as usize, available: MAX_PAYLOAD, context: "frame payload" }), p)
    } else {
        let (rc, p) = if h.flags & FLAG_CRC_PRESENT != 0 {
            let (r, q) = spec_read_u16(d, p);
            match r {
                Ok(c) => (Ok(Some(c)), q),
                Err(e) => (Err(e), q),
            }
        } else {
            (Ok(None), p)
        };
        match rc {
            Err(e) => (Err(e), p),
            Ok(header_crc) => {
                let (r, p) = spec_take(d, p, h.declared_len as int);
                match r {
                    Err(e) => (Err(e), p),
                    Ok(payload) => {
                        if header_crc is Some && spec_crc16(payload) != header_crc->0 {
                            (Err(GridError::CrcMismatch { expected: header_crc->0, actual: spec_crc16(payload) }), p)
                        } else if h.fragment_count == 0 || h.fragment_index >= h.fragment_count {
                            (Err(GridError::InvalidLength {
                                declared: h.fragment_index as usize,
                                available: h.fragment_count as usize,
                                context: "fragment header",
                            }), p)
                        } else {
                            (Ok(FrameView {
                                flags: h.flags,
                                session_id: h.session_id,
                                sequence: h.sequence,
                                fragment_index: h.fragment_index,
                                fragment_count: h.fragment_count,
                                kind: h.kind,
                                payload,
                                header_crc,
                                offset: offset as usize,
                            }), p)
                        }
                    },
                }
            },
        }
    }
}

/// One frame at `p`: the magic `GP`, version 1, the header, then the body.
pub open spec fn spec_parse_frame(d: Seq<u8>, p: int) -> (Result<FrameView, GridError>, int) {
    let (r, p1) = spec_read_u8(d, p);
    match r {
        Err(e) => (Err(e), p1),
        Ok(m0) => if m0 != MAGIC_G {
            (Err(GridError::InvalidMagic { offset: p as usize }), p1)
        } else {
            let (r, p2) = spec_read_u8(d, p1);
            match r {
                Err(e) => (Err(e), p2),
                Ok(m1) => if m1 != MAGIC_P {
                    (Err(GridError::InvalidMagic { offset: p as usize }), p2)
                } else {
                    let (r, p3) = spec_read_u8(d, p2);
                    match r {
                        Err(e) => (Err(e), p3),
                        Ok(version) => if version != VERSION {
                            (Err(GridError::InvalidVersion(version)), p3)
                        } else {
                            let (r, p4) = spec_header_fields(d, p3);
                            match r {
                                Err(e) => (Err(e), p4),
                                Ok(h) => spec_frame_body(d, p4, h, p),
                            }
                        },
                    }
                },
            }
        },
    }
}

fn read_header_fields(cursor: &mut ByteCursor<'_>) -> (r: Result<FrameHeader, GridError>)
    ensures
        final(cursor).data() == old(cursor).data(),
        (r, final(cursor).pos()) == spec_header_fields(old(cursor).data(), old(cursor).pos()),
{
    let flags = cursor.read_u8()?;
    let session_id = cursor.read_u16_le()?;
    let sequence = cursor.read_u16_le()?;
    let fragment_index = cursor.read_u8()?;
    let fragment_count = cursor.read_u8()?;
    let kind = FrameKind::from_byte(cursor.read_u8()?);
    let declared_len = cursor.read_u16_le()?;
    Ok(FrameHeader { flags, session_id, sequence, fragment_index, fragment_count, kind, declared_len })
}

/// Parses one frame at the cursor.
pub fn parse_one_frame(cursor: &mut ByteCursor<'_>) -> (r: Result<Frame, GridError>)
    ensures
        final(cursor).data() == old(cursor).data(),
        (view_res(r), final(cursor).pos()) == spec_parse_frame(old(cursor).data(), old(cursor).pos()),
{
    let offset = cursor.position();
    if cursor.read_u8()? != MAGIC_G || cursor.read_u8()? != MAGIC_P {
        return Err(GridError::InvalidMagic { offset });
    }
    let version = cursor.read_u8()?;
    if version != VERSION {
        return Err(GridError::InvalidVersion(version));
    }
    let h = read_header_fields(cursor)?;
    let declared_len = h.declared_len as usize;
    if declared_len > MAX_PAYLOAD {
        return Err(GridError::InvalidLength { declared: declared_len, available: MAX_PAYLOAD, context: "frame payload" });
    }
    let header_crc = if h.flags & FLAG_CRC_PRESENT != 0 {
        Some(cursor.read_u16_le()?)
    } else {
        None
    };
    let payload = vstd::slice::slice_to_vec(cursor.take(declared_len)?);
    if let Some(expected) = header_crc {
        let actual = crc16_gridpulse(payload.as_slice());
        if actual != expected {
            return Err(GridError::CrcMismatch { expected, actual });
        }
    }
    if h.fragment_count == 0 || h.fragment_index >= h.fragment_count {
        return Err(GridError::InvalidLength {
            declared: h.fragment_index as usize,
            available: h.fragment_count as usize,
            context: "fragment header",
        });
    }
    Ok(Frame {
        flags: h.flags,
        session_id: h.session_id,
        sequence: h.sequence,
        fragment_index: h.fragment_index,
        fragment_count: h.fragment_count,
        kind: h.kind,
        payload,
        header_crc,
        offset,
    })
}


/// Frames taken by their views.
pub open spec fn frames_view(v: Seq<Frame>) -> Seq<FrameView> {
    v.map_values(|f: Frame| f@)
}

/// A frame attempt never moves back, never leaves the data, and moves
/// forward when it yields a frame or finds a bad magic.
pub proof fn lemma_frame_progress(d: Seq<u8>, p: int)
    requires
        0 <= p,
        spec_remaining(d, p) >= 4,
    ensures
        p <= spec_parse_frame(d, p).1 <= d.len(),
        spec_parse_frame(d, p).0 is Ok ==> spec_parse_frame(d, p).1 > p,
        spec_parse_frame(d, p).0 matches Err(GridError::InvalidMagic { .. }) ==> p < spec_parse_frame(d, p).1 <= p + 2,
{
}

/// The frames of a stream from position `p`, after `acc`: frames are
/// taken one after another while at least four bytes remain; a bad magic
/// resumes the search one byte after where that attempt started, so a
/// frame that begins right after stray bytes is found; a truncated
/// frame ends the stream, any other error fails it, and the stream stops
/// once more than `MAX_FRAMES` frames are held.
pub open spec fn spec_frames_from(d: Seq<u8>, p: int, acc: Seq<FrameView>) -> Result<Seq<FrameView>, GridError>
    decreases d.len() - p,
{
    if p < 0 || spec_remaining(d, p) < 4 {
        Ok(acc)
    } else {
        proof { lemma_frame_progress(d, p); }
        let (r, q) = spec_parse_frame(d, p);
        match r {
            Ok(f) => {
                let acc2 = acc.push(f);
                if acc2.len() > MAX_FRAMES { Ok(acc2) } else { spec_frames_from(d, q, acc2) }
            },
            Err(GridError::InvalidMagic { .. }) => {
                if acc.len() > MAX_FRAMES { Ok(acc) } else { spec_frames_from(d, p + 1, acc) }
            },
            Err(GridError::Truncated { .. }) => Ok(acc),
            Err(e) => Err(e),
        }
    }
}

/// The frames of a whole stream.
pub open spec fn spec_parse_frames(d: Seq<u8>) -> Result<Seq<FrameView>, GridError> {
    spec_frames_from(d, 0, Seq::empty())
}

/// Parses the frames of a stream; a byte where no frame starts is passed
/// over and the search goes on at the next byte.
pub fn parse_frames(data: &[u8]) -> (r: Result<Vec<Frame>, GridError>)
    ensures
        (match r {
            Ok(v) => spec_parse_frames(data@) == Ok::<Seq<FrameView>, GridError>(frames_view(v@)) && v@.len() <= MAX_FRAMES + 1,
            Err(e) => spec_parse_frames(data@) == Err::<Seq<FrameView>, GridError>(e),
        }),
{
    let mut cursor = ByteCursor::new(data);
    let mut frames: Vec<Frame> = Vec::new();
    // Brings the bound on the slice's length into the loop invariant.
    let _len = data.len();
    proof { assert(frames_view(frames@) =~= Seq::<FrameView>::empty()); }
    while cursor.remaining() >= 4
        invariant_except_break
            cursor.data() == data@,
            0 <= cursor.pos() <= data@.len() <= usize::MAX,
            frames@.len() <= MAX_FRAMES,
            spec_parse_frames(data@) == spec_frames_from(data@, cursor.pos(), frames_view(frames@)),
        ensures
            spec_parse_frames(data@) == Ok::<Seq<FrameView>, GridError>(frames_view(frames@)),
            frames@.len() <= MAX_FRAMES + 1,
        decreases data@.len() - cursor.pos(),
    {
        let ghost p = cursor.pos();
        let ghost acc = frames_view(frames@);
        proof { lemma_frame_progress(data@, p); }
        let start = cursor.position();
        let attempt = parse_one_frame(&mut cursor);
        match attempt {
            Ok(frame) => {
                frames.push(frame);
                proof { assert(frames_view(frames@) =~= acc.push(frame@)); }
            },
            Err(GridError::InvalidMagic { .. }) => {
                let sought = cursor.seek(start + 1);
                assert(sought is Ok);
            },
            Err(GridError::Truncated { .. }) => {
                break;
            },
            Err(err) => {
                return Err(err);
            },
        }
        if frames.len() > MAX_FRAMES {
            break;
        }
    }
    Ok(frames)
}

/// The two little-endian bytes of `v`.
pub open spec fn le16_bytes(v: u16) -> Seq<u8> {
    seq![(v % 256) as u8, (v / 256) as u8]
}

/// The fixed thirteen-byte header of a seed frame: magic, version, flags,
/// session, sequence, fragment 0 of 1, kind, payload length.
pub open spec fn seed_header(kind: FrameKind, session_id: u16, sequence: u16, flags: u8, len: u16) -> Seq<u8> {
    seq![MAGIC_G, MAGIC_P, VERSION, flags,
        (session_id % 256) as u8, (session_id / 256) as u8,
        (sequence % 256) as u8, (sequence / 256) as u8,
        0u8, 1u8, kind_byte(kind),
        (len % 256) as u8, (len / 256) as u8]
}

/// A single unfragmented frame: the seed header, the payload CRC when
/// the flags ask for it, then the payload.
pub open spec fn spec_encode_seed_frame(kind: FrameKind, session_id: u16, sequence: u16, flags: u8, payload: Seq<u8>) -> Seq<u8> {
    seed_header(kind, session_id, sequence, flags, payload.len() as u16)
        + (if flags & FLAG_CRC_PRESENT != 0 { le16_bytes(spec_crc16(payload)) } else { Seq::<u8>::empty() })
        + payload
}

fn push_le16(out: &mut Vec<u8>, v: u16)
    ensures
        final(out)@ == old(out)@ + le16_bytes(v),
{
    out.push((v % 256) as u8);
    out.push((v / 256) as u8);
    proof { assert(final(out)@ =~= old(out)@ + le16_bytes(v)); }
}

/// Encodes a whole (unfragmented) frame around a payload.
pub fn encode_seed_frame(kind: FrameKind, session_id: u16, sequence: u16, flags: u8, payload: &[u8]) -> (out: Vec<u8>)
    ensures
        out@ == spec_encode_seed_frame(kind, session_id, sequence, flags, payload@),
{
    let mut out: Vec<u8> = Vec::new();
    out.push(MAGIC_G);
    out.push(MAGIC_P);
    out.push(VERSION);
    out.push(flags);
    push_le16(&mut out, session_id);
    push_le16(&mut out, sequence);
    out.push(0);
    out.push(1);
    out.push(kind.as_byte());
    push_le16(&mut out, payload.len() as u16);
    let ghost before_crc = out@;
    proof { assert(before_crc =~= seed_header(kind, session_id, sequence, flags, payload@.len() as u16)); }
    if flags & FLAG_CRC_PRESENT != 0 {
        push_le16(&mut out, crc16_gridpulse(payload));
    }
    let ghost before_payload = out@;
    let mut body = vstd::slice::slice_to_vec(payload);
    out.append(&mut body);
    proof {
        let crc_part = if flags & FLAG_CRC_PRESENT != 0 { le16_bytes(spec_crc16(payload@)) } else { Seq::<u8>::empty() };
        assert(before_payload =~= before_crc + crc_part);
    }
    out
}

/// The frame that a seed encoding describes.
pub open spec fn seed_frame_view(kind: FrameKind, session_id: u16, sequence: u16, flags: u8, payload: Seq<u8>) -> FrameView {
    FrameView {
        flags,
        session_id,
        sequence,
        fragment_index: 0,
        fragment_count: 1,
        kind: kind_of(kind_byte(kind)),
        payload,
        header_crc: if flags & FLAG_CRC_PRESENT != 0 { Some(spec_crc16(payload)) } else { None },
        offset: 0,
    }
}

/// The header of a seed frame reads back as the fields it was built from.
proof fn lemma_seed_header_fields(e: Seq<u8>, kind: FrameKind, session_id: u16, sequence: u16, flags: u8, len: u16)
    requires
        e.len() >= 13,
        e.subrange(0, 13) == seed_header(kind, session_id, sequence, flags, len),
    ensures
        spec_header_fields(e, 3) == (Ok::<FrameHeader, GridError>(FrameHeader {
            flags,
            session_id,
            sequence,
            fragment_index: 0,
            fragment_count: 1,
            kind: kind_of(kind_byte(kind)),
            declared_len: len,
        }), 13int),
{
    let hd = seed_header(kind, session_id, sequence, flags, len);
    assert(forall|i: int| 0 <= i < 13 ==> e[i] == #[trigger] hd[i]) by {
        assert forall|i: int| 0 <= i < 13 implies e[i] == #[trigger] hd[i] by {
            assert(e.subrange(0, 13)[i] == e[i]);
        }
    }
    assert(e.subrange(4, 6) =~= seq![hd[4], hd[5]]);
    assert(e.subrange(6, 8) =~= seq![hd[6], hd[7]]);
    assert(e.subrange(11, 13) =~= seq![hd[11], hd[12]]);
}

/// A seed frame whose payload fits the frame limit parses back, whole,
/// into the frame it was built from.
#[verifier::rlimit(30)]
pub proof fn law_seed_frame_roundtrip(kind: FrameKind, session_id: u16, sequence: u16, flags: u8, payload: Seq<u8>)
    requires
        payload.len() <= MAX_PAYLOAD,
    ensures
        spec_parse_frame(spec_encode_seed_frame(kind, session_id, sequence, flags, payload), 0)
            == (Ok::<FrameView, GridError>(seed_frame_view(kind, session_id, sequence, flags, payload)),
                spec_encode_seed_frame(kind, session_id, sequence, flags, payload).len() as int),
        spec_parse_frames(spec_encode_seed_frame(kind, session_id, sequence, flags, payload))
            == Ok::<Seq<FrameView>, GridError>(seq![seed_frame_view(kind, session_id, sequence, flags, payload)]),
{
    let e = spec_encode_seed_frame(kind, session_id, sequence, flags, payload);
    let len = payload.len() as u16;
    let hd = seed_header(kind, session_id, sequence, flags, len);
    let crc_on = flags & FLAG_CRC_PRESENT != 0;
    let crc_part = if crc_on { le16_bytes(spec_crc16(payload)) } else { Seq::<u8>::empty() };
    let h: int = if crc_on { 15 } else { 13 };
    assert(e == hd + crc_part + payload);
    assert(e.len() == h + payload.len());
    assert(e.subrange(0, 13) =~= hd);
    assert(e[0] == hd[0] && e[1] == hd[1] && e[2] == hd[2]);
    lemma_seed_header_fields(e, kind, session_id, sequence, flags, len);
    assert(len == payload.len());
    if crc_on {
        assert(e.subrange(13, 15) =~= crc_part);
    }
    assert(e.subrange(h, h + payload.len()) =~= payload);
    let hdr = FrameHeader {
        flags,
        session_id,
        sequence,
        fragment_index: 0,
        fragment_count: 1,
        kind: kind_of(kind_byte(kind)),
        declared_len: len,
    };
    assert(spec_frame_body(e, 13, hdr, 0) == (Ok::<FrameView, GridError>(seed_frame_view(kind, session_id, sequence, flags, payload)), e.len() as int));
    let acc = seq![seed_frame_view(kind, session_id, sequence, flags, payload)];
    assert(Seq::<FrameView>::empty().push(seed_frame_view(kind, session_id, sequence, flags, payload)) =~= acc);
    assert(spec_frames_from(e, e.len() as int, acc) == Ok::<Seq<FrameView>, GridError>(acc));
}


/// What every parsed frame satisfies: its fragment index lies below its
/// fragment count, its payload fits the frame limit, and it carries a
/// checksum exactly when its flags say so, one that its payload matches.
pub open spec fn frame_valid(f: FrameView) -> bool {
    &&& f.fragment_index < f.fragment_count
    &&& f.payload.len() <= MAX_PAYLOAD
    &&& (f.header_crc is Some <==> f.flags & FLAG_CRC_PRESENT != 0)
    &&& (f.header_crc matches Some(c) ==> spec_crc16(f.payload) == c)
}

proof fn lemma_frames_from_valid(d: Seq<u8>, p: int, acc: Seq<FrameView>)
    requires
        forall|i: int| 0 <= i < acc.len() ==> frame_valid(#[trigger] acc[i]),
    ensures
        spec_frames_from(d, p, acc) matches Ok(fs) ==> forall|i: int| 0 <= i < fs.len() ==> frame_valid(#[trigger] fs[i]),
    decreases d.len() - p,
{
    if p < 0 || spec_remaining(d, p) < 4 {
    } else {
        lemma_frame_progress(d, p);
        let (r, q) = spec_parse_frame(d, p);
        match r {
            Ok(f) => {
                let acc2 = acc.push(f);
                assert(frame_valid(f));
                assert forall|i: int| 0 <= i < acc2.len() implies frame_valid(#[trigger] acc2[i]) by {
                    if i < acc.len() { assert(acc2[i] == acc[i]); }
                }
                if acc2.len() <= MAX_FRAMES {
                    lemma_frames_from_valid(d, q, acc2);
                }
            },
            Err(GridError::InvalidMagic { .. }) => {
                if acc.len() <= MAX_FRAMES {
                    lemma_frames_from_valid(d, p + 1, acc);
                }
            },
            Err(_) => {},
        }
    }
}

/// Every frame that a stream yields is valid: fragment numbering,
/// payload limit and checksum were all checked before it was kept.
pub proof fn law_parsed_frames_are_valid(d: Seq<u8>)
    ensures
        spec_parse_frames(d) matches Ok(fs) ==> forall|i: int| 0 <= i < fs.len() ==> frame_valid(#[trigger] fs[i]),
{
    lemma_frames_from_valid(d, 0, Seq::empty());
}


proof fn lemma_frames_from_errors(d: Seq<u8>, p: int, acc: Seq<FrameView>)
    ensures
        spec_frames_from(d, p, acc) matches Err(e) ==> e is InvalidVersion || e is InvalidLength || e is CrcMismatch,
    decreases d.len() - p,
{
    if !(p < 0 || spec_remaining(d, p) < 4) {
        lemma_frame_progress(d, p);
        let (r, q) = spec_parse_frame(d, p);
        match r {
            Ok(f) => {
                if acc.push(f).len() <= MAX_FRAMES {
                    lemma_frames_from_errors(d, q, acc.push(f));
                }
            },
            Err(GridError::InvalidMagic { .. }) => {
                if acc.len() <= MAX_FRAMES {
                    lemma_frames_from_errors(d, p + 1, acc);
                }
            },
            Err(_) => {},
        }
    }
}

/// Bytes that do not start a frame are skipped and a frame cut short ends
/// the stream: a stream fails only on a frame that starts well but is
/// itself bad (its version, its length or fragment numbering, or its CRC).
pub proof fn law_stream_errors_are_frame_errors(d: Seq<u8>)
    ensures
        spec_parse_frames(d) matches Err(e) ==> e is InvalidVersion || e is InvalidLength || e is CrcMismatch,
{
    lemma_frames_from_errors(d, 0, Seq::empty());
}


/// The kind byte of a frame names its kind: 1 hello, 2 template, 3
/// reading, 4 route, 5 script, 6 ack, 7 clock; any other byte is an
/// unknown kind carrying it; and each named kind is written as its byte.
pub proof fn law_frame_kind_bytes(byte: u8)
    ensures
        byte == 1 ==> kind_of(byte) == FrameKind::Hello,
        byte == 2 ==> kind_of(byte) == FrameKind::Template,
        byte == 3 ==> kind_of(byte) == FrameKind::Reading,
        byte == 4 ==> kind_of(byte) == FrameKind::Route,
        byte == 5 ==> kind_of(byte) == FrameKind::Script,
        byte == 6 ==> kind_of(byte) == FrameKind::Ack,
        byte == 7 ==> kind_of(byte) == FrameKind::Clock,
        (byte == 0 || byte > 7) ==> kind_of(byte) == FrameKind::Unknown(byte),
        kind_byte(FrameKind::Hello) == 1,
        kind_byte(FrameKind::Template) == 2,
        kind_byte(FrameKind::Reading) == 3,
        kind_byte(FrameKind::Route) == 4,
        kind_byte(FrameKind::Script) == 5,
        kind_byte(FrameKind::Ack) == 6,
        kind_byte(FrameKind::Clock) == 7,
        kind_byte(FrameKind::Unknown(byte)) == byte,
{
}

} // verus!
