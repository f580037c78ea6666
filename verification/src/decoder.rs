//! The inbound frame decoder.
//!
//! Bytes arrive in arbitrary pieces and are queued at the tail of a receive
//! buffer; a read cursor walks over complete frames. A frame is a
//! length-prefixed unit: the prefix counts the bytes that follow. When the
//! negotiated compression threshold is enabled, the frame body starts with
//! the declared uncompressed size; a non-zero size means the remainder is a
//! zlib stream.

use vstd::prelude::*;

use crate::byteseq::{append_bytes, copy_range};
use crate::varint::{
    spec_parse_varint, varint_bytes, read_varint, write_varint, VarIntParse, VarIntResult,
    lemma_parse_varint_of_encoding,
};

verus! {

/// The largest frame body the protocol allows.
pub const MAX_PACKET_SIZE: usize = 0x001F_FFFF;

/// The protocol version this library targets.
pub const PROTOCOL_VERSION: i32 = 763;

/// A protocol violation found while extracting a frame. Each one is fatal to
/// the connection that sent the bytes.
#[derive(Clone, Copy, Debug, PartialEq, Eq, Structural)]
pub enum DecodeError {
    /// The frame length prefix is an over-long integer.
    BadLengthPrefix,
    /// The declared frame or data length exceeds the protocol maximum.
    OversizedFrame,
    /// The declared uncompressed size inside the body is malformed.
    BadDataLength,
    /// The packet id at the head of the body is malformed.
    BadPacketId,
    /// The compressed body is not a valid zlib stream.
    DecompressFailed,
    /// The inflated body does not have the declared size.
    DecompressedLengthMismatch,
}

/// A protocol violation found while interpreting a frame as a concrete
/// packet type.
#[derive(Clone, Copy, Debug, PartialEq, Eq, Structural)]
pub enum PacketError {
    /// The frame's id is not the id of the requested packet type.
    PacketIdMismatch,
    /// A structural decode left bytes of the body unread.
    TrailingBytes,
}

/// The unsigned reading of a packet id's bits.
pub open spec fn i32_as_u32(v: i32) -> u32 {
    if v >= 0 {
        v as u32
    } else {
        (v + 0x1_0000_0000) as u32
    }
}

/// The signed reading of a decoded 32-bit value.
pub open spec fn u32_as_i32(v: u32) -> i32 {
    if v < 0x8000_0000 {
        v as i32
    } else {
        (v - 0x1_0000_0000) as i32
    }
}

/// The two readings invert each other.
pub proof fn lemma_i32_u32_round_trip(v: i32)
    ensures
        u32_as_i32(i32_as_u32(v)) == v,
{
}

/// Reinterprets a decoded 32-bit value as a signed packet id.
pub fn u32_to_i32(v: u32) -> (r: i32)
    ensures
        r == u32_as_i32(v),
{
    if v < 0x8000_0000 {
        v as i32
    } else {
        let low: i32 = (v - 0x8000_0000) as i32;
        low - 0x7FFF_FFFF - 1
    }
}

/// Reinterprets a signed packet id as the 32-bit value put on the wire.
pub fn i32_to_u32(v: i32) -> (r: u32)
    ensures
        r == i32_as_u32(v),
{
    if v >= 0 {
        v as u32
    } else {
        let high: u32 = (v + 0x7FFF_FFFF + 1) as u32;
        high + 0x8000_0000
    }
}

/// What zlib inflation of a byte sequence yields. The result is a function
/// of the bytes alone.
pub uninterp spec fn zlib_inflate(s: Seq<u8>) -> Option<Seq<u8>>;

/// Relies on flate2's ZlibDecoder: inflating a byte stream is deterministic
/// in the bytes; the whole decoded stream is returned, or the attempt fails.
/// A decoded stream longer than `limit` is treated as a failure.
#[verifier::external_body]
fn zlib_inflate_limited(data: &[u8], limit: usize) -> (r: Option<Vec<u8>>)
    ensures
        r matches Some(v) ==> zlib_inflate(data@) == Some(v@) && v@.len() <= limit,
        r is None ==> (zlib_inflate(data@) is None || (zlib_inflate(data@) matches Some(d)
            && d.len() > limit)),
{
    let decoder = flate2::read::ZlibDecoder::new(data);
    let mut limited = std::io::Read::take(decoder, (limit as u64).saturating_add(1));
    let mut out = Vec::new();
    match std::io::Read::read_to_end(&mut limited, &mut out) {
        Ok(_) => {
            if out.len() > limit {
                None
            } else {
                Some(out)
            }
        },
        Err(_) => None,
    }
}

/// Outcome of looking for a frame at the head of the unread bytes.
pub enum FrameParse {
    /// No complete frame has arrived yet; nothing is consumed.
    Incomplete,
    /// The bytes at the head violate the protocol.
    Malformed(DecodeError),
    /// A complete frame: its id, its body, and how many buffered bytes it
    /// occupied.
    Parsed { id: i32, body: Seq<u8>, consumed: int },
}

/// The id and remaining body at the head of an uncompressed frame body.
pub open spec fn spec_packet_of(body: Seq<u8>) -> Option<(i32, Seq<u8>)> {
    match spec_parse_varint(body) {
        VarIntParse::Parsed { value, size } => Some((u32_as_i32(value), body.skip(size))),
        _ => None,
    }
}

/// Interprets a fully-arrived frame body under the compression rules:
/// `plain` bytes hold a packet id followed by the packet's payload.
pub open spec fn spec_frame_of_plain(plain: Seq<u8>, consumed: int) -> FrameParse {
    match spec_packet_of(plain) {
        Some((id, b)) => FrameParse::Parsed { id, body: b, consumed },
        None => FrameParse::Malformed(DecodeError::BadPacketId),
    }
}

/// Reading one frame from the unread bytes `s` with the given compression
/// threshold (negative means compression is disabled).
pub open spec fn spec_parse_frame(s: Seq<u8>, threshold: int) -> FrameParse {
    match spec_parse_varint(s) {
        VarIntParse::Incomplete => FrameParse::Incomplete,
        VarIntParse::TooLong => FrameParse::Malformed(DecodeError::BadLengthPrefix),
        VarIntParse::Parsed { value: frame_len, size: k } => {
            if frame_len > MAX_PACKET_SIZE {
                FrameParse::Malformed(DecodeError::OversizedFrame)
            } else if s.len() - k < frame_len {
                FrameParse::Incomplete
            } else {
                let body = s.subrange(k, k + frame_len);
                let consumed = k + frame_len;
                if threshold < 0 {
                    spec_frame_of_plain(body, consumed)
                } else {
                    match spec_parse_varint(body) {
                        VarIntParse::Parsed { value: data_len, size: j } => {
                            if data_len == 0 {
                                spec_frame_of_plain(body.skip(j), consumed)
                            } else if data_len > MAX_PACKET_SIZE {
                                FrameParse::Malformed(DecodeError::OversizedFrame)
                            } else {
                                match zlib_inflate(body.skip(j)) {
                                    Some(d) => {
                                        if d.len() == data_len {
                                            spec_frame_of_plain(d, consumed)
                                        } else if d.len() > MAX_PACKET_SIZE {
                                            FrameParse::Malformed(DecodeError::DecompressFailed)
                                        } else {
                                            FrameParse::Malformed(
                                                DecodeError::DecompressedLengthMismatch,
                                            )
                                        }
                                    },
                                    None => FrameParse::Malformed(DecodeError::DecompressFailed),
                                }
                            }
                        },
                        _ => FrameParse::Malformed(DecodeError::BadDataLength),
                    }
                }
            }
        },
    }
}

/// The wire bytes of one frame carrying `id` and `body` with compression
/// disabled: a length prefix, the id, the body.
pub open spec fn frame_bytes_plain(id: i32, body: Seq<u8>) -> Seq<u8> {
    let payload = varint_bytes(i32_as_u32(id) as nat) + body;
    varint_bytes(payload.len() as nat) + payload
}

/// The wire bytes of one below-threshold frame when compression is enabled:
/// a length prefix, a zero declared size, the id, the body.
pub open spec fn frame_bytes_uncompressed(id: i32, body: Seq<u8>) -> Seq<u8> {
    let payload = seq![0u8] + varint_bytes(i32_as_u32(id) as nat) + body;
    varint_bytes(payload.len() as nat) + payload
}

/// A frame encoded with compression disabled reads back as exactly its id
/// and body, whatever follows it, and consumes exactly its own bytes.
pub proof fn lemma_parse_frame_of_plain_encoding(id: i32, body: Seq<u8>, rest: Seq<u8>,
    threshold: int)
    requires
        threshold < 0,
        varint_bytes(i32_as_u32(id) as nat).len() + body.len() <= MAX_PACKET_SIZE,
    ensures
        spec_parse_frame(frame_bytes_plain(id, body) + rest, threshold) == (FrameParse::Parsed {
            id,
            body,
            consumed: frame_bytes_plain(id, body).len() as int,
        }),
        frame_bytes_plain(id, body).len() >= 2,
{
    let idu = i32_as_u32(id);
    let idb = varint_bytes(idu as nat);
    let payload = idb + body;
    let len_u32: u32 = payload.len() as u32;
    let s = frame_bytes_plain(id, body) + rest;
    assert(s =~= varint_bytes(len_u32 as nat) + (payload + rest));
    lemma_parse_varint_of_encoding(len_u32, payload + rest);
    let k = varint_bytes(len_u32 as nat).len() as int;
    assert(spec_parse_varint(s) == (VarIntParse::Parsed { value: len_u32, size: k }));
    assert(s.len() - k == payload.len() + rest.len());
    assert(s.subrange(k, k + payload.len()) =~= payload);
    lemma_parse_varint_of_encoding(idu, body);
    assert(payload =~= idb + body);
    let j = idb.len() as int;
    assert(spec_parse_varint(payload) == (VarIntParse::Parsed { value: idu, size: j }));
    assert(payload.skip(j) =~= body);
    lemma_i32_u32_round_trip(id);
    assert(frame_bytes_plain(id, body).len() == k + payload.len());
}

/// A below-threshold frame encoded under enabled compression reads back as
/// exactly its id and body, whatever follows it.
pub proof fn lemma_parse_frame_of_uncompressed_encoding(id: i32, body: Seq<u8>, rest: Seq<u8>,
    threshold: int)
    requires
        threshold >= 0,
        1 + varint_bytes(i32_as_u32(id) as nat).len() + body.len() <= MAX_PACKET_SIZE,
    ensures
        spec_parse_frame(frame_bytes_uncompressed(id, body) + rest, threshold)
            == (FrameParse::Parsed {
            id,
            body,
            consumed: frame_bytes_uncompressed(id, body).len() as int,
        }),
        frame_bytes_uncompressed(id, body).len() >= 3,
{
    let idu = i32_as_u32(id);
    let idb = varint_bytes(idu as nat);
    let payload = seq![0u8] + idb + body;
    let len_u32: u32 = payload.len() as u32;
    let s = frame_bytes_uncompressed(id, body) + rest;
    assert(s =~= varint_bytes(len_u32 as nat) + (payload + rest));
    lemma_parse_varint_of_encoding(len_u32, payload + rest);
    let k = varint_bytes(len_u32 as nat).len() as int;
    assert(spec_parse_varint(s) == (VarIntParse::Parsed { value: len_u32, size: k }));
    assert(s.len() - k == payload.len() + rest.len());
    assert(s.subrange(k, k + payload.len()) =~= payload);
    assert(payload =~= varint_bytes(0) + (idb + body));
    lemma_parse_varint_of_encoding(0, idb + body);
    assert(spec_parse_varint(payload) == (VarIntParse::Parsed { value: 0, size: 1 }));
    assert(payload.skip(1) =~= idb + body);
    lemma_parse_varint_of_encoding(idu, body);
    assert(spec_parse_varint(idb + body) == (VarIntParse::Parsed { value: idu, size: idb.len()
        as int }));
    assert((idb + body).skip(idb.len() as int) =~= body);
    lemma_i32_u32_round_trip(id);
    assert(frame_bytes_uncompressed(id, body).len() == k + payload.len());
}

/// A stream of frames laid end to end, each one encoded with compression
/// disabled.
pub open spec fn frames_bytes(frames: Seq<(i32, Seq<u8>)>) -> Seq<u8>
    decreases frames.len(),
{
    if frames.len() == 0 {
        Seq::empty()
    } else {
        frame_bytes_plain(frames[0].0, frames[0].1) + frames_bytes(frames.skip(1))
    }
}

/// Every frame of the stream respects the protocol's size cap.
pub open spec fn frames_fit(frames: Seq<(i32, Seq<u8>)>) -> bool {
    forall|i: int| #![trigger frames[i]] 0 <= i < frames.len()
        ==> varint_bytes(i32_as_u32(frames[i].0) as nat).len() + frames[i].1.len()
        <= MAX_PACKET_SIZE
}

/// Reading frames from the head of `s` until one is incomplete or malformed
/// or `fuel` frames were read: the decoder's drain loop, in specification
/// form.
pub open spec fn spec_drain_frames(s: Seq<u8>, threshold: int, fuel: nat) -> Seq<(i32, Seq<u8>)>
    decreases fuel,
{
    if fuel == 0 {
        Seq::empty()
    } else {
        match spec_parse_frame(s, threshold) {
            FrameParse::Parsed { id, body, consumed } => seq![(id, body)] + spec_drain_frames(
                s.skip(consumed),
                threshold,
                (fuel - 1) as nat,
            ),
            _ => Seq::empty(),
        }
    }
}

/// The decoder round trip: a stream formed by concatenating any frames that
/// fit the protocol, however the bytes were split when they arrived, drains
/// back to exactly those frames, in order, with no duplication or loss.
pub proof fn lemma_decoder_round_trip(frames: Seq<(i32, Seq<u8>)>, threshold: int)
    requires
        threshold < 0,
        frames_fit(frames),
    ensures
        spec_drain_frames(frames_bytes(frames), threshold, frames.len()) == frames,
    decreases frames.len(),
{
    if frames.len() == 0 {
        assert(spec_drain_frames(frames_bytes(frames), threshold, 0) =~= frames);
    } else {
        let head = frames[0];
        let tail = frames.skip(1);
        let rest = frames_bytes(tail);
        assert(head == frames[0]);
        lemma_parse_frame_of_plain_encoding(head.0, head.1, rest, threshold);
        let s = frames_bytes(frames);
        let consumed = frame_bytes_plain(head.0, head.1).len() as int;
        assert(s == frame_bytes_plain(head.0, head.1) + rest);
        assert(s.skip(consumed) =~= rest);
        assert(frames_fit(tail)) by {
            assert(forall|i: int| #![trigger tail[i]] 0 <= i < tail.len() ==> tail[i]
                == frames[i + 1]);
        }
        lemma_decoder_round_trip(tail, threshold);
        assert(spec_drain_frames(s, threshold, frames.len()) =~= seq![(head.0, head.1)]
            + spec_drain_frames(rest, threshold, tail.len()));
        assert(seq![(head.0, head.1)] + tail =~= frames);
    }
}

/// A stream of below-threshold frames laid end to end, each one encoded
/// under enabled compression with a zero declared size.
pub open spec fn frames_bytes_uncompressed(frames: Seq<(i32, Seq<u8>)>) -> Seq<u8>
    decreases frames.len(),
{
    if frames.len() == 0 {
        Seq::empty()
    } else {
        frame_bytes_uncompressed(frames[0].0, frames[0].1) + frames_bytes_uncompressed(
            frames.skip(1),
        )
    }
}

/// Every frame of the stream, with its zero-size marker, respects the
/// protocol's size cap.
pub open spec fn frames_fit_uncompressed(frames: Seq<(i32, Seq<u8>)>) -> bool {
    forall|i: int| #![trigger frames[i]] 0 <= i < frames.len()
        ==> 1 + varint_bytes(i32_as_u32(frames[i].0) as nat).len() + frames[i].1.len()
        <= MAX_PACKET_SIZE
}

/// The decoder round trip under enabled compression: a stream of
/// below-threshold frames drains back to exactly those frames, in order.
pub proof fn lemma_decoder_round_trip_below_threshold(frames: Seq<(i32, Seq<u8>)>, threshold: int)
    requires
        threshold >= 0,
        frames_fit_uncompressed(frames),
    ensures
        spec_drain_frames(frames_bytes_uncompressed(frames), threshold, frames.len()) == frames,
    decreases frames.len(),
{
    if frames.len() == 0 {
        assert(spec_drain_frames(frames_bytes_uncompressed(frames), threshold, 0) =~= frames);
    } else {
        let head = frames[0];
        let tail = frames.skip(1);
        let rest = frames_bytes_uncompressed(tail);
        lemma_parse_frame_of_uncompressed_encoding(head.0, head.1, rest, threshold);
        let s = frames_bytes_uncompressed(frames);
        let consumed = frame_bytes_uncompressed(head.0, head.1).len() as int;
        assert(s == frame_bytes_uncompressed(head.0, head.1) + rest);
        assert(s.skip(consumed) =~= rest);
        assert(frames_fit_uncompressed(tail)) by {
            assert(forall|i: int| #![trigger tail[i]] 0 <= i < tail.len() ==> tail[i]
                == frames[i + 1]);
        }
        lemma_decoder_round_trip_below_threshold(tail, threshold);
        assert(spec_drain_frames(s, threshold, frames.len()) =~= seq![(head.0, head.1)]
            + spec_drain_frames(rest, threshold, tail.len()));
        assert(seq![(head.0, head.1)] + tail =~= frames);
    }
}

/// Appends one frame carrying `id` and `body` to `out`, encoded with
/// compression disabled.
pub fn encode_frame_plain(out: &mut Vec<u8>, id: i32, body: &[u8])
    requires
        varint_bytes(i32_as_u32(id) as nat).len() + body@.len() <= MAX_PACKET_SIZE,
    ensures
        final(out)@ == old(out)@ + frame_bytes_plain(id, body@),
{
    let idu = i32_to_u32(id);
    let mut payload: Vec<u8> = Vec::new();
    write_varint(&mut payload, idu);
    proof {
        assert(payload@ =~= Seq::<u8>::empty() + varint_bytes(idu as nat));
        lemma_parse_varint_of_encoding(idu, Seq::<u8>::empty());
    }
    append_bytes(&mut payload, body);
    write_varint(out, payload.len() as u32);
    append_bytes(out, payload.as_slice());
    proof {
        assert(payload@ =~= varint_bytes(i32_as_u32(id) as nat) + body@);
        assert(out@ =~= old(out)@ + frame_bytes_plain(id, body@));
    }
}

/// A decoded-but-unvalidated frame: an integer packet id plus the body
/// bytes after the id prefix.
#[derive(Debug, Clone, PartialEq, Eq)]
pub struct BorrowedPacketFrame {
    /// The id of the decoded packet.
    pub id: i32,
    /// The contents of the packet after the leading id.
    pub body: Vec<u8>,
}

impl BorrowedPacketFrame {
    /// Validates this frame against a concrete packet type: `expected_id` is
    /// the type's id and `bytes_consumed` is how much of the body the type's
    /// structural decode used. The id is checked first; then the decode must
    /// have used the body whole.
    pub fn decode_as(&self, expected_id: i32, bytes_consumed: usize) -> (r: Result<
        (),
        PacketError,
    >)
        requires
            bytes_consumed <= self.body@.len(),
        ensures
            r is Ok <==> (expected_id == self.id && bytes_consumed == self.body@.len()),
            r == Err::<(), PacketError>(PacketError::PacketIdMismatch) <==> expected_id != self.id,
            r == Err::<(), PacketError>(PacketError::TrailingBytes) <==> (expected_id == self.id
                && bytes_consumed < self.body@.len()),
    {
        if expected_id != self.id {
            return Err(PacketError::PacketIdMismatch);
        }
        if bytes_consumed < self.body.len() {
            return Err(PacketError::TrailingBytes);
        }
        Ok(())
    }
}

/// Splits an uncompressed frame body into its id and the bytes after it.
fn split_packet(plain: &[u8]) -> (r: Result<BorrowedPacketFrame, DecodeError>)
    ensures
        match r {
            Ok(f) => spec_packet_of(plain@) == Some((f.id, f.body@)),
            Err(e) => spec_packet_of(plain@) is None && e == DecodeError::BadPacketId,
        },
{
    proof {
        assert(plain@.skip(0) =~= plain@);
    }
    match read_varint(plain, 0) {
        VarIntResult::Done(v, j) => {
            let id = u32_to_i32(v);
            let body = copy_range(plain, j, plain.len());
            proof {
                assert(plain@.subrange(j as int, plain@.len() as int) =~= plain@.skip(j as int));
            }
            Ok(BorrowedPacketFrame { id, body })
        },
        _ => Err(DecodeError::BadPacketId),
    }
}

/// A byte buffer with a read cursor: bytes before the cursor are consumed,
/// bytes after it are still to be read.
pub struct RefBytesMut {
    inner: Vec<u8>,
    cursor: usize,
}

impl RefBytesMut {
    /// The cursor never passes the end of the buffer.
    pub closed spec fn wf(self) -> bool {
        self.cursor <= self.inner@.len()
    }

    /// The bytes that are still to be read.
    pub closed spec fn pending(self) -> Seq<u8> {
        self.inner@.skip(self.cursor as int)
    }

    /// An empty buffer.
    pub fn new() -> (r: RefBytesMut)
        ensures
            r.wf(),
            r.pending() == Seq::<u8>::empty(),
    {
        let r = RefBytesMut { inner: Vec::new(), cursor: 0 };
        proof {
            assert(r.pending() =~= Seq::<u8>::empty());
        }
        r
    }

    /// Marks the next `amount` unread bytes as consumed.
    pub fn advance(&mut self, amount: usize)
        requires
            old(self).wf(),
            amount <= old(self).pending().len(),
        ensures
            final(self).wf(),
            final(self).pending() == old(self).pending().skip(amount as int),
    {
        let total: usize = self.inner.len();
        proof {
            assert(self.cursor + amount <= total);
        }
        self.cursor = self.cursor + amount;
        proof {
            assert(self.pending() =~= old(self).pending().skip(amount as int));
        }
    }

    /// Takes the next `len` unread bytes, consuming them.
    pub fn split_to(&mut self, len: usize) -> (r: Vec<u8>)
        requires
            old(self).wf(),
            len <= old(self).pending().len(),
        ensures
            final(self).wf(),
            r@ == old(self).pending().take(len as int),
            final(self).pending() == old(self).pending().skip(len as int),
    {
        let total: usize = self.inner.len();
        proof {
            assert(self.cursor + len <= total);
        }
        let r = copy_range(self.inner.as_slice(), self.cursor, self.cursor + len);
        proof {
            assert(r@ =~= old(self).pending().take(len as int));
        }
        self.advance(len);
        r
    }

    /// Appends newly-arrived bytes at the tail.
    pub fn queue(&mut self, bytes: &[u8])
        requires
            old(self).wf(),
        ensures
            final(self).wf(),
            final(self).pending() == old(self).pending() + bytes@,
    {
        let mut i: usize = 0;
        while i < bytes.len()
            invariant
                old(self).wf(),
                i <= bytes@.len(),
                self.cursor == old(self).cursor,
                self.inner@ == old(self).inner@ + bytes@.take(i as int),
            decreases bytes@.len() - i,
        {
            self.inner.push(bytes[i]);
            proof {
                assert(self.inner@ =~= old(self).inner@ + bytes@.take(i + 1 as int));
            }
            i = i + 1;
        }
        proof {
            assert(bytes@.take(bytes@.len() as int) =~= bytes@);
            assert(self.pending() =~= old(self).pending() + bytes@);
        }
    }

    /// Discards the consumed bytes before the cursor, compacting the buffer.
    pub fn shift_excess(&mut self)
        requires
            old(self).wf(),
        ensures
            final(self).wf(),
            final(self).pending() == old(self).pending(),
    {
        let rest = copy_range(self.inner.as_slice(), self.cursor, self.inner.len());
        self.inner = rest;
        self.cursor = 0;
        proof {
            assert(self.pending() =~= old(self).pending());
        }
    }
}

/// A buffer for bytes that are not yet decoded, with the connection's
/// negotiated compression threshold.
pub struct PacketDecoder {
    buf: RefBytesMut,
    threshold: i32,
}

impl Default for PacketDecoder {
    /// A decoder with nothing buffered and compression disabled.
    fn default() -> (r: PacketDecoder)
        ensures
            r.wf(),
            r.pending() == Seq::<u8>::empty(),
            r.compression_spec() == -1,
    {
        PacketDecoder { buf: RefBytesMut::new(), threshold: -1 }
    }
}

impl PacketDecoder {
    /// The buffered bytes that are still to be decoded.
    pub closed spec fn pending(self) -> Seq<u8> {
        self.buf.pending()
    }

    /// The decoder's cursor stays inside its buffer.
    pub closed spec fn wf(self) -> bool {
        self.buf.wf()
    }

    /// The negotiated compression threshold; negative means disabled.
    pub closed spec fn compression_spec(self) -> int {
        self.threshold as int
    }

    /// Gets the compression threshold.
    pub fn compression(&self) -> (r: i32)
        ensures
            r as int == self.compression_spec(),
    {
        self.threshold
    }

    /// Sets the compression threshold.
    pub fn set_compression(&mut self, threshold: i32)
        ensures
            final(self).compression_spec() == threshold as int,
            final(self).pending() == old(self).pending(),
            final(self).wf() == old(self).wf(),
    {
        self.threshold = threshold;
    }

    /// Queues a slice of newly-received bytes into the buffer.
    pub fn queue_slice(&mut self, bytes: &[u8])
        requires
            old(self).wf(),
        ensures
            final(self).wf(),
            final(self).pending() == old(self).pending() + bytes@,
            final(self).compression_spec() == old(self).compression_spec(),
    {
        self.buf.queue(bytes);
    }

    /// Compacts the buffer by discarding bytes already consumed; the unread
    /// bytes are untouched.
    pub fn shift_excess(&mut self)
        requires
            old(self).wf(),
        ensures
            final(self).wf(),
            final(self).pending() == old(self).pending(),
            final(self).compression_spec() == old(self).compression_spec(),
    {
        self.buf.shift_excess();
    }

    /// Tries to extract the next frame from the buffer. A complete frame is
    /// consumed and returned; an incomplete one leaves the buffer exactly as
    /// it was, so the call can be repeated once more bytes are queued; a
    /// protocol violation is reported and consumes nothing.
    pub fn try_next_packet(&mut self) -> (r: Result<Option<BorrowedPacketFrame>, DecodeError>)
        requires
            old(self).wf(),
        ensures
            final(self).wf(),
            final(self).compression_spec() == old(self).compression_spec(),
            ({
                let p = spec_parse_frame(old(self).pending(), old(self).compression_spec());
                match r {
                    Ok(None) => p is Incomplete && final(self).pending() == old(self).pending(),
                    Ok(Some(f)) => p matches FrameParse::Parsed { id, body, consumed } && f.id
                        == id && f.body@ == body && final(self).pending() == old(
                        self,
                    ).pending().skip(consumed),
                    Err(e) => p == FrameParse::Malformed(e) && final(self).pending() == old(
                        self,
                    ).pending(),
                }
            }),
    {
        let ghost s = self.pending();
        match read_varint(self.buf.inner.as_slice(), self.buf.cursor) {
            VarIntResult::Incomplete => Ok(None),
            VarIntResult::TooLong => Err(DecodeError::BadLengthPrefix),
            VarIntResult::Done(frame_len, k) => {
                if frame_len > MAX_PACKET_SIZE as u32 {
                    return Err(DecodeError::OversizedFrame);
                }
                let frame_len: usize = frame_len as usize;
                let avail: usize = self.buf.inner.len() - self.buf.cursor - k;
                if avail < frame_len {
                    return Ok(None);
                }
                let body_start = self.buf.cursor + k;
                let body = copy_range(self.buf.inner.as_slice(), body_start, body_start
                    + frame_len);
                proof {
                    assert(body@ =~= s.subrange(k as int, k + frame_len));
                }
                let consumed = k + frame_len;
                if self.threshold < 0 {
                    match split_packet(body.as_slice()) {
                        Ok(f) => {
                            self.buf.advance(consumed);
                            Ok(Some(f))
                        },
                        Err(e) => Err(e),
                    }
                } else {
                    proof {
                        assert(body@.skip(0) =~= body@);
                    }
                    match read_varint(body.as_slice(), 0) {
                        VarIntResult::Done(data_len, j) => {
                            if data_len == 0 {
                                let rest = copy_range(body.as_slice(), j, body.len());
                                proof {
                                    assert(rest@ =~= body@.skip(j as int));
                                }
                                match split_packet(rest.as_slice()) {
                                    Ok(f) => {
                                        self.buf.advance(consumed);
                                        Ok(Some(f))
                                    },
                                    Err(e) => Err(e),
                                }
                            } else if data_len > MAX_PACKET_SIZE as u32 {
                                Err(DecodeError::OversizedFrame)
                            } else {
                                let compressed = copy_range(body.as_slice(), j, body.len());
                                proof {
                                    assert(compressed@ =~= body@.skip(j as int));
                                }
                                match zlib_inflate_limited(
                                    compressed.as_slice(),
                                    MAX_PACKET_SIZE,
                                ) {
                                    Some(d) => {
                                        if d.len() != data_len as usize {
                                            if d.len() > MAX_PACKET_SIZE {
                                                Err(DecodeError::DecompressFailed)
                                            } else {
                                                Err(DecodeError::DecompressedLengthMismatch)
                                            }
                                        } else {
                                            match split_packet(d.as_slice()) {
                                                Ok(f) => {
                                                    self.buf.advance(consumed);
                                                    Ok(Some(f))
                                                },
                                                Err(e) => Err(e),
                                            }
                                        }
                                    },
                                    None => Err(DecodeError::DecompressFailed),
                                }
                            }
                        },
                        _ => Err(DecodeError::BadDataLength),
                    }
                }
            },
        }
    }
}

} // verus!
