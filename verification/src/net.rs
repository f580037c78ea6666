//! Networking-side types: transport handles, transport events, the
//! per-connection outbound encoder, and offline id derivation.

use vstd::prelude::*;
use vstd::string::StringSliceAdditionalSpecFns;

use crate::byteseq::append_bytes;
use crate::decoder::{
    encode_frame_plain, frame_bytes_plain, i32_as_u32, MAX_PACKET_SIZE,
};
use crate::varint::varint_bytes;

verus! {

/// A transport handle: the fixed slot index the kernel I/O backend assigned
/// to one connection's descriptor.
#[derive(Debug, Copy, Clone, PartialEq, Eq, Structural, Hash)]
pub struct Fd(pub u32);

/// What the transport layer reports when its staged I/O results are drained
/// at the start of a tick.
pub enum ServerEvent {
    /// A connection finished its transport-level handshake.
    AddPlayer {
        /// The new connection's handle.
        fd: Fd,
    },
    /// A connection went away; its entity is flagged for removal at the
    /// tick boundary.
    RemovePlayer {
        /// The closed connection's handle.
        fd: Fd,
    },
    /// Bytes arrived on a connection, to be queued into its decoder.
    RecvData {
        /// The connection the bytes arrived on.
        fd: Fd,
        /// The bytes, in arrival order.
        data: Vec<u8>,
    },
}

/// Failure to append to an encoder whose buffer has reached its fixed
/// limit: the packet is dropped for this tick.
#[derive(Clone, Copy, Debug, PartialEq, Eq, Structural)]
pub struct CapacityError;

/// The per-connection outbound encoder: a byte buffer with a fixed size
/// limit, flushed by the transport layer after the tick's phases complete.
pub struct Encoder {
    buf: Vec<u8>,
    limit: usize,
}

impl Encoder {
    /// The bytes staged for sending.
    pub closed spec fn view_spec(self) -> Seq<u8> {
        self.buf@
    }

    /// The buffer's fixed size limit.
    pub closed spec fn limit_spec(self) -> int {
        self.limit as int
    }

    /// The encoder never stages more than its limit.
    pub closed spec fn wf(self) -> bool {
        self.buf@.len() <= self.limit
    }

    /// An empty encoder that will stage at most `limit` bytes per tick.
    pub fn new(limit: usize) -> (r: Encoder)
        ensures
            r.wf(),
            r.view_spec() == Seq::<u8>::empty(),
            r.limit_spec() == limit,
    {
        Encoder { buf: Vec::new(), limit }
    }

    /// Discards the staged bytes once the transport layer has sent them.
    pub fn clear(&mut self)
        ensures
            final(self).wf(),
            final(self).view_spec() == Seq::<u8>::empty(),
            final(self).limit_spec() == old(self).limit_spec(),
    {
        self.buf.clear();
    }

    /// The staged bytes, for the transport layer to submit.
    pub fn buf(&self) -> (r: &Vec<u8>)
        ensures
            r@ == self.view_spec(),
    {
        &self.buf
    }

    /// Appends pre-encoded bytes. Fails, staging nothing, exactly when the
    /// bytes would push the buffer past its limit.
    pub fn append_raw(&mut self, bytes: &[u8]) -> (r: Result<(), CapacityError>)
        requires
            old(self).wf(),
        ensures
            final(self).wf(),
            final(self).limit_spec() == old(self).limit_spec(),
            old(self).view_spec().len() + bytes@.len() <= old(self).limit_spec() ==> r is Ok
                && final(self).view_spec() == old(self).view_spec() + bytes@,
            old(self).view_spec().len() + bytes@.len() > old(self).limit_spec() ==> r
                == Err::<(), CapacityError>(CapacityError) && final(self).view_spec() == old(
                self,
            ).view_spec(),
    {
        if bytes.len() > self.limit - self.buf.len() {
            Err(CapacityError)
        } else {
            append_bytes(&mut self.buf, bytes);
            Ok(())
        }
    }

    /// Encodes one packet as a frame — length prefix, id, body — and stages
    /// it. Fails, staging nothing, exactly when the frame would push the
    /// buffer past its limit.
    pub fn append(&mut self, id: i32, body: &[u8]) -> (r: Result<(), CapacityError>)
        requires
            old(self).wf(),
            varint_bytes(i32_as_u32(id) as nat).len() + body@.len() <= MAX_PACKET_SIZE,
        ensures
            final(self).wf(),
            final(self).limit_spec() == old(self).limit_spec(),
            old(self).view_spec().len() + frame_bytes_plain(id, body@).len() <= old(
                self,
            ).limit_spec() ==> r is Ok && final(self).view_spec() == old(self).view_spec()
                + frame_bytes_plain(id, body@),
            old(self).view_spec().len() + frame_bytes_plain(id, body@).len() > old(
                self,
            ).limit_spec() ==> r == Err::<(), CapacityError>(CapacityError)
                && final(self).view_spec() == old(self).view_spec(),
    {
        let mut frame: Vec<u8> = Vec::new();
        encode_frame_plain(&mut frame, id, body);
        proof {
            assert(frame@ =~= Seq::<u8>::empty() + frame_bytes_plain(id, body@));
        }
        self.append_raw(frame.as_slice())
    }
}

/// The eight bytes of a 64-bit value, most significant first.
pub open spec fn u64_be_bytes(v: u64) -> Seq<u8> {
    seq![
        (((v as nat) / 0x100_0000_0000_0000) % 256) as u8,
        (((v as nat) / 0x1_0000_0000_0000) % 256) as u8,
        (((v as nat) / 0x100_0000_0000) % 256) as u8,
        (((v as nat) / 0x1_0000_0000) % 256) as u8,
        (((v as nat) / 0x100_0000) % 256) as u8,
        (((v as nat) / 0x1_0000) % 256) as u8,
        (((v as nat) / 0x100) % 256) as u8,
        ((v as nat) % 256) as u8,
    ]
}

/// Frames one proxy message for the egress stream: eight big-endian length
/// bytes, then the serialized payload.
pub fn length_prefixed(payload: &[u8]) -> (r: Vec<u8>)
    ensures
        r@ == u64_be_bytes(payload@.len() as u64) + payload@,
{
    let v: u64 = payload.len() as u64;
    let mut r: Vec<u8> = Vec::new();
    r.push((v / 0x100_0000_0000_0000 % 256) as u8);
    r.push((v / 0x1_0000_0000_0000 % 256) as u8);
    r.push((v / 0x100_0000_0000 % 256) as u8);
    r.push((v / 0x1_0000_0000 % 256) as u8);
    r.push((v / 0x100_0000 % 256) as u8);
    r.push((v / 0x1_0000 % 256) as u8);
    r.push((v / 0x100 % 256) as u8);
    r.push((v % 256) as u8);
    proof {
        assert(r@ =~= u64_be_bytes(v));
    }
    append_bytes(&mut r, payload);
    r
}

/// The digest that a well-known cryptographic hash assigns to a byte
/// sequence. The result is a function of the bytes alone.
pub uninterp spec fn sha256_of(s: Seq<u8>) -> Seq<u8>;

/// Relies on sha2's Sha256: the digest is a function of the input bytes
/// alone and is always 32 bytes long.
#[verifier::external_body]
fn sha256(data: &[u8]) -> (r: Vec<u8>)
    ensures
        r@ == sha256_of(data@),
        r@.len() == 32,
{
    let out = <sha2::Sha256 as sha2::Digest>::digest(data);
    out.as_slice().to_vec()
}

/// The sixteen id bytes assigned to a player who has no authenticated
/// account: the first half of the digest of the player's name.
pub fn offline_uuid(username: &str) -> (r: Vec<u8>)
    ensures
        r@ == sha256_of(username.spec_bytes()).take(16),
        r@.len() == 16,
{
    let digest = sha256(username.as_bytes());
    let head = crate::byteseq::copy_range(digest.as_slice(), 0, 16);
    proof {
        assert(head@ =~= sha256_of(username.spec_bytes()).take(16));
    }
    head
}

} // verus!
