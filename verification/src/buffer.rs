//! The outbound byte buffer that may be pinned by kernel I/O.
//!
//! A registered (pinned) region may be referenced by in-flight kernel I/O and
//! must not move. While it is pinned, growth beyond its known room goes
//! through a staging copy: a fresh buffer that holds the same bytes and takes
//! the appends. Registration, called by the I/O submission step when no I/O
//! is outstanding, promotes the staging buffer to be the new pinned region.
//! The caller is responsible for never registering while I/O is outstanding;
//! that protocol is enforced by the tick's phase ordering, not here.

use vstd::prelude::*;

use crate::byteseq::copy_range;

verus! {

/// `n` copies of one byte.
pub open spec fn repeat_byte(b: u8, n: nat) -> Seq<u8> {
    Seq::new(n, |i: int| b)
}

/// The kernel-facing description of the registered region: how many bytes
/// it holds and how much room it was given. The transport layer pairs it
/// with the region's address when it submits I/O.
#[derive(Clone, Copy, Debug, PartialEq, Eq, Structural)]
pub struct RegisteredRegion {
    /// Bytes currently held.
    pub len: usize,
    /// Room the region was created with.
    pub capacity: usize,
}

/// A growable byte buffer whose current region may be pinned by kernel I/O.
pub struct MaybeRegisteredBuffer {
    registered_buffer: Vec<u8>,
    registered_cap: usize,
    new_buffer: Option<Vec<u8>>,
    staging_cap: usize,
}

impl Default for MaybeRegisteredBuffer {
    /// An empty buffer whose first appends go to a staging buffer, so that
    /// nothing touches the (empty) pinned region.
    fn default() -> (r: MaybeRegisteredBuffer)
        ensures
            r.wf(),
            r.contents() == Seq::<u8>::empty(),
            r.pinned() == Seq::<u8>::empty(),
            r.has_staging(),
    {
        MaybeRegisteredBuffer {
            registered_buffer: Vec::new(),
            registered_cap: 0,
            new_buffer: Some(Vec::new()),
            staging_cap: 0,
        }
    }
}

impl MaybeRegisteredBuffer {
    /// The logical contents: the staging buffer when one exists, the pinned
    /// region otherwise.
    pub closed spec fn contents(self) -> Seq<u8> {
        match self.new_buffer {
            Some(b) => b@,
            None => self.registered_buffer@,
        }
    }

    /// The bytes of the pinned region, which in-flight I/O may reference.
    pub closed spec fn pinned(self) -> Seq<u8> {
        self.registered_buffer@
    }

    /// Whether a staging buffer exists.
    pub closed spec fn has_staging(self) -> bool {
        self.new_buffer is Some
    }

    /// How much room the pinned region is known to have.
    pub closed spec fn pinned_room(self) -> int {
        self.registered_cap as int
    }

    /// The pinned region never holds more than its known room.
    pub closed spec fn wf(self) -> bool {
        self.registered_buffer@.len() <= self.registered_cap
    }

    /// An empty buffer with the given room prepared in staging.
    pub fn with_capacity(len: usize) -> (r: MaybeRegisteredBuffer)
        ensures
            r.wf(),
            r.contents() == Seq::<u8>::empty(),
            r.pinned() == Seq::<u8>::empty(),
            r.has_staging(),
    {
        MaybeRegisteredBuffer {
            registered_buffer: Vec::new(),
            registered_cap: 0,
            new_buffer: Some(Vec::with_capacity(len)),
            staging_cap: len,
        }
    }

    /// How many bytes the buffer logically holds.
    pub fn len(&self) -> (r: usize)
        ensures
            r == self.contents().len(),
    {
        match &self.new_buffer {
            Some(b) => b.len(),
            None => self.registered_buffer.len(),
        }
    }

    /// A read-only view of the logical contents, for vectored I/O
    /// submission.
    pub fn current_view(&self) -> (r: &[u8])
        ensures
            r@ == self.contents(),
    {
        match &self.new_buffer {
            Some(b) => b.as_slice(),
            None => self.registered_buffer.as_slice(),
        }
    }

    /// Appends bytes to the logical contents. While the pinned region is in
    /// use and too small, the bytes go to a staging copy and the pinned
    /// region is left untouched; within its known room the pinned region is
    /// extended in place.
    pub fn push(&mut self, bytes: &[u8])
        requires
            old(self).wf(),
        ensures
            final(self).wf(),
            final(self).pinned_room() == old(self).pinned_room(),
            final(self).contents() == old(self).contents() + bytes@,
            old(self).has_staging() ==> final(self).has_staging() && final(self).pinned() == old(
                self,
            ).pinned(),
            !old(self).has_staging() && old(self).contents().len() + bytes@.len() <= old(
                self,
            ).pinned_room() ==> !final(self).has_staging() && final(self).pinned() == old(
                self,
            ).pinned() + bytes@,
            !old(self).has_staging() && old(self).contents().len() + bytes@.len() > old(
                self,
            ).pinned_room() ==> final(self).has_staging() && final(self).pinned() == old(
                self,
            ).pinned(),
    {
        match &mut self.new_buffer {
            Some(b) => {
                crate::byteseq::append_bytes(b, bytes);
                if b.len() > self.staging_cap {
                    self.staging_cap = b.len();
                }
            },
            None => {
                let need = self.registered_buffer.len();
                if need > self.registered_cap || bytes.len() > self.registered_cap - need {
                    let mut fresh = copy_range(
                        self.registered_buffer.as_slice(),
                        0,
                        self.registered_buffer.len(),
                    );
                    proof {
                        assert(fresh@ =~= self.registered_buffer@);
                    }
                    crate::byteseq::append_bytes(&mut fresh, bytes);
                    self.staging_cap = fresh.len();
                    self.new_buffer = Some(fresh);
                } else {
                    crate::byteseq::append_bytes(&mut self.registered_buffer, bytes);
                }
            },
        }
    }

    /// Appends bytes to the logical contents, growing through a staging
    /// copy exactly as `push` does: a pinned region is never grown past its
    /// known room.
    pub fn extend_from_slice(&mut self, slice: &[u8])
        requires
            old(self).wf(),
        ensures
            final(self).wf(),
            final(self).pinned_room() == old(self).pinned_room(),
            final(self).contents() == old(self).contents() + slice@,
            old(self).has_staging() ==> final(self).has_staging() && final(self).pinned() == old(
                self,
            ).pinned(),
            !old(self).has_staging() && old(self).contents().len() + slice@.len() <= old(
                self,
            ).pinned_room() ==> !final(self).has_staging() && final(self).pinned() == old(
                self,
            ).pinned() + slice@,
            !old(self).has_staging() && old(self).contents().len() + slice@.len() > old(
                self,
            ).pinned_room() ==> final(self).has_staging() && final(self).pinned() == old(
                self,
            ).pinned(),
    {
        self.push(slice);
    }

    /// Fills `amount` copies of `byte` into the logical contents, growing
    /// through staging exactly as `push` does.
    pub fn put_bytes(&mut self, byte: u8, amount: usize)
        requires
            old(self).wf(),
        ensures
            final(self).wf(),
            final(self).pinned_room() == old(self).pinned_room(),
            final(self).contents() == old(self).contents() + repeat_byte(byte, amount as nat),
            old(self).has_staging() ==> final(self).has_staging() && final(self).pinned() == old(
                self,
            ).pinned(),
            !old(self).has_staging() && old(self).contents().len() + amount <= old(
                self,
            ).pinned_room() ==> !final(self).has_staging() && final(self).pinned() == old(
                self,
            ).pinned() + repeat_byte(byte, amount as nat),
            !old(self).has_staging() && old(self).contents().len() + amount > old(
                self,
            ).pinned_room() ==> final(self).has_staging() && final(self).pinned() == old(
                self,
            ).pinned(),
    {
        let mut fill: Vec<u8> = Vec::new();
        let mut i: usize = 0;
        while i < amount
            invariant
                0 <= i <= amount,
                fill@ =~= repeat_byte(byte, i as nat),
            decreases amount - i,
        {
            fill.push(byte);
            proof {
                assert(fill@ =~= repeat_byte(byte, (i + 1) as nat));
            }
            i = i + 1;
        }
        self.push(fill.as_slice());
        proof {
            assert(fill@ == repeat_byte(byte, amount as nat));
        }
    }

    /// Shortens the logical contents to at most `len` bytes.
    pub fn truncate(&mut self, len: usize)
        requires
            old(self).wf(),
        ensures
            final(self).wf(),
            final(self).pinned_room() == old(self).pinned_room(),
            len <= old(self).contents().len() ==> final(self).contents() == old(
                self,
            ).contents().take(len as int),
            len > old(self).contents().len() ==> final(self).contents() == old(self).contents(),
            final(self).has_staging() == old(self).has_staging(),
            old(self).has_staging() ==> final(self).pinned() == old(self).pinned(),
    {
        match &mut self.new_buffer {
            Some(b) => {
                b.truncate(len);
            },
            None => {
                self.registered_buffer.truncate(len);
            },
        }
    }

    /// Copies the byte range `src_start..src_end` of the logical contents
    /// onto the positions starting at `dest`, as a memory move: every read
    /// sees the contents as they were before the call.
    pub fn copy_within(&mut self, src_start: usize, src_end: usize, dest: usize)
        requires
            old(self).wf(),
            src_start <= src_end <= old(self).contents().len(),
            dest + (src_end - src_start) <= old(self).contents().len(),
        ensures
            final(self).wf(),
            final(self).pinned_room() == old(self).pinned_room(),
            final(self).contents().len() == old(self).contents().len(),
            forall|k: int|
                0 <= k < final(self).contents().len() ==> final(self).contents()[k] == (if dest
                    <= k < dest + (src_end - src_start) {
                    old(self).contents()[src_start + (k - dest)]
                } else {
                    old(self).contents()[k]
                }),
            final(self).has_staging() == old(self).has_staging(),
            old(self).has_staging() ==> final(self).pinned() == old(self).pinned(),
    {
        match &mut self.new_buffer {
            Some(b) => {
                copy_within_vec(b, src_start, src_end, dest);
            },
            None => {
                copy_within_vec(&mut self.registered_buffer, src_start, src_end, dest);
            },
        }
    }

    /// Promotes the staging buffer, if any, to be the pinned region, and
    /// reports the region the kernel should register: its byte count and its
    /// room. Only the transport layer may call this, between I/O cycles,
    /// when no I/O references the old pinned region. Without an intervening
    /// append, a second call changes nothing and reports the same region.
    pub fn register(&mut self) -> (r: RegisteredRegion)
        requires
            old(self).wf(),
        ensures
            final(self).wf(),
            final(self).contents() == old(self).contents(),
            final(self).pinned() == old(self).contents(),
            !final(self).has_staging(),
            r.len == old(self).contents().len(),
            r.capacity as int == final(self).pinned_room(),
            r.len <= r.capacity,
            !old(self).has_staging() ==> final(self).pinned_room() == old(self).pinned_room(),
    {
        match self.new_buffer.take() {
            Some(b) => {
                self.registered_buffer = b;
                self.registered_cap = self.staging_cap;
                if self.registered_buffer.len() > self.registered_cap {
                    self.registered_cap = self.registered_buffer.len();
                }
            },
            None => {},
        }
        RegisteredRegion { len: self.registered_buffer.len(), capacity: self.registered_cap }
    }

    /// The pinned region as the I/O submission step sees it.
    pub fn registered_region(&self) -> (r: RegisteredRegion)
        requires
            self.wf(),
        ensures
            r.len == self.pinned().len(),
            r.capacity as int == self.pinned_room(),
            r.len <= r.capacity,
    {
        RegisteredRegion { len: self.registered_buffer.len(), capacity: self.registered_cap }
    }
}

/// Copies the range `src_start..src_end` of `v` onto positions starting at
/// `dest`, reading the pre-call contents throughout.
fn copy_within_vec(v: &mut Vec<u8>, src_start: usize, src_end: usize, dest: usize)
    requires
        src_start <= src_end <= old(v)@.len(),
        dest + (src_end - src_start) <= old(v)@.len(),
    ensures
        final(v)@.len() == old(v)@.len(),
        forall|k: int|
            0 <= k < final(v)@.len() ==> final(v)@[k] == (if dest <= k < dest + (src_end
                - src_start) {
                old(v)@[src_start + (k - dest)]
            } else {
                old(v)@[k]
            }),
{
    let tmp = copy_range(v.as_slice(), src_start, src_end);
    let n = src_end - src_start;
    let total: usize = v.len();
    let mut i: usize = 0;
    while i < n
        invariant
            0 <= i <= n,
            n == src_end - src_start,
            total == old(v)@.len(),
            src_start <= src_end <= old(v)@.len(),
            dest + n <= old(v)@.len(),
            tmp@ == old(v)@.subrange(src_start as int, src_end as int),
            v@.len() == old(v)@.len(),
            forall|k: int|
                0 <= k < v@.len() ==> v@[k] == (if dest <= k < dest + i {
                    old(v)@[src_start + (k - dest)]
                } else {
                    old(v)@[k]
                }),
        decreases n - i,
    {
        let b = tmp[i];
        v[dest + i] = b;
        i = i + 1;
    }
}

} // verus!
