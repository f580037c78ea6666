//! The chunk-streaming scheduler.
//!
//! Each connection keeps a working set of pending chunk coordinates. When the
//! player's view center moves, coordinates that fell far outside the view are
//! pruned, the newly visible ones are added, and the set is sorted by squared
//! distance to the new center, farthest first, so that the send phase can pop
//! the nearest chunks from the end. Every tick the send phase pops at most a
//! fixed budget of coordinates whose chunk bytes are resident; coordinates
//! still loading stay pending for a later tick.

use vstd::prelude::*;
use vstd::seq_lib::group_to_multiset_ensures;
use vstd::seq_lib::lemma_seq_contains_after_push;

verus! {

broadcast use group_to_multiset_ensures, lemma_seq_contains_after_push;

/// How many chunk payloads one connection may be sent per tick.
pub const MAX_CHUNKS_PER_TICK: usize = 16;

/// A 2D integer coordinate identifying a chunk column.
#[derive(Clone, Copy, Debug, PartialEq, Eq, Structural, Hash)]
pub struct ChunkPos {
    /// The chunk's x coordinate.
    pub x: i16,
    /// The chunk's z coordinate.
    pub z: i16,
}

/// The squared distance between two chunk coordinates.
pub open spec fn dist2(a: ChunkPos, b: ChunkPos) -> int {
    (a.x - b.x) * (a.x - b.x) + (a.z - b.z) * (a.z - b.z)
}

/// Whether `p` lies in the half-open square window of the given radius
/// around `center`.
pub open spec fn in_window(center: ChunkPos, radius: int, p: ChunkPos) -> bool {
    &&& center.x - radius <= p.x < center.x + radius
    &&& center.z - radius <= p.z < center.z + radius
}

/// The send order around `center`: farther chunks come first, and chunks at
/// equal distance are ordered by coordinates so that equal entries end up
/// adjacent.
pub open spec fn chunk_le(center: ChunkPos, a: ChunkPos, b: ChunkPos) -> bool {
    ||| dist2(a, center) > dist2(b, center)
    ||| (dist2(a, center) == dist2(b, center) && (a.x < b.x || (a.x == b.x && a.z <= b.z)))
}

/// The send order relates every pair of coordinates.
pub proof fn lemma_chunk_le_total(center: ChunkPos, a: ChunkPos, b: ChunkPos)
    ensures
        chunk_le(center, a, b) || chunk_le(center, b, a),
{
}

/// The send order is transitive.
pub proof fn lemma_chunk_le_transitive(center: ChunkPos, a: ChunkPos, b: ChunkPos, c: ChunkPos)
    requires
        chunk_le(center, a, b),
        chunk_le(center, b, c),
    ensures
        chunk_le(center, a, c),
{
}

/// Two coordinates that precede each other are the same coordinate.
pub proof fn lemma_chunk_le_antisymmetric(center: ChunkPos, a: ChunkPos, b: ChunkPos)
    requires
        chunk_le(center, a, b),
        chunk_le(center, b, a),
    ensures
        a == b,
{
}

/// A sequence laid out in send order around `center`: farthest first.
pub open spec fn sorted_for(center: ChunkPos, s: Seq<ChunkPos>) -> bool {
    forall|i: int, j: int| 0 <= i < j < s.len() ==> chunk_le(center, #[trigger] s[i], #[trigger] s[j])
}

/// Decides the send order between two coordinates.
pub fn chunk_before(center: ChunkPos, a: ChunkPos, b: ChunkPos) -> (r: bool)
    ensures
        r == chunk_le(center, a, b),
{
    let dax: i64 = a.x as i64 - center.x as i64;
    let daz: i64 = a.z as i64 - center.z as i64;
    let dbx: i64 = b.x as i64 - center.x as i64;
    let dbz: i64 = b.z as i64 - center.z as i64;
    proof {
        assert(forall|d: int| -65536 <= d <= 65536 ==> 0 <= #[trigger] (d * d)
            <= 0x1_0000_0000) by (nonlinear_arith);
    }
    let da: i64 = dax * dax + daz * daz;
    let db: i64 = dbx * dbx + dbz * dbz;
    if da > db {
        true
    } else if da == db {
        a.x < b.x || (a.x == b.x && a.z <= b.z)
    } else {
        false
    }
}

/// Decides whether `p` lies in the half-open square window of the given
/// radius around `center`.
pub fn window_contains(center: ChunkPos, radius: i32, p: ChunkPos) -> (r: bool)
    requires
        0 <= radius,
    ensures
        r == in_window(center, radius as int, p),
{
    let rad: i64 = radius as i64;
    let cx: i64 = center.x as i64;
    let cz: i64 = center.z as i64;
    let px: i64 = p.x as i64;
    let pz: i64 = p.z as i64;
    cx - rad <= px && px < cx + rad && cz - rad <= pz && pz < cz + rad
}

/// The coordinates newly visible around `current` that were not visible
/// around `last`: the window difference, column by column.
fn window_diff(current: ChunkPos, last: ChunkPos, radius: i32) -> (r: Vec<ChunkPos>)
    requires
        0 <= radius,
        current.x - radius >= -0x8000,
        current.x + radius <= 0x8000,
        current.z - radius >= -0x8000,
        current.z + radius <= 0x8000,
    ensures
        forall|p: ChunkPos| r@.contains(p) <==> (in_window(current, radius as int, p)
            && !in_window(last, radius as int, p)),
{
    let mut r: Vec<ChunkPos> = Vec::new();
    let x_lo: i32 = current.x as i32 - radius;
    let x_hi: i32 = current.x as i32 + radius;
    let z_lo: i32 = current.z as i32 - radius;
    let z_hi: i32 = current.z as i32 + radius;
    let mut x: i32 = x_lo;
    while x < x_hi
        invariant
            x_lo <= x <= x_hi,
            x_lo == current.x - radius,
            x_hi == current.x + radius,
            z_lo == current.z - radius,
            z_hi == current.z + radius,
            0 <= radius,
            -0x8000 <= x_lo,
            x_hi <= 0x8000,
            -0x8000 <= z_lo,
            z_hi <= 0x8000,
            forall|p: ChunkPos| r@.contains(p) <==> (in_window(current, radius as int, p)
                && !in_window(last, radius as int, p) && p.x < x),
        decreases x_hi - x,
    {
        let mut z: i32 = z_lo;
        while z < z_hi
            invariant
                z_lo <= z <= z_hi,
                x_lo <= x < x_hi,
                x_lo == current.x - radius,
                x_hi == current.x + radius,
                z_lo == current.z - radius,
                z_hi == current.z + radius,
                0 <= radius,
                -0x8000 <= x_lo,
                x_hi <= 0x8000,
                -0x8000 <= z_lo,
                z_hi <= 0x8000,
                forall|p: ChunkPos| r@.contains(p) <==> (in_window(current, radius as int, p)
                    && !in_window(last, radius as int, p) && (p.x < x || (p.x == x && p.z < z))),
            decreases z_hi - z,
        {
            let pos = ChunkPos { x: x as i16, z: z as i16 };
            if !window_contains(last, radius, pos) {
                r.push(pos);
            }
            z = z + 1;
        }
        x = x + 1;
    }
    r
}

/// Keeps only the pending coordinates inside the liberal window around
/// `center`, preserving their order.
fn retain_window(v: &Vec<ChunkPos>, center: ChunkPos, radius: i32) -> (r: Vec<ChunkPos>)
    requires
        0 <= radius,
    ensures
        forall|p: ChunkPos| r@.contains(p) <==> (v@.contains(p) && in_window(
            center,
            radius as int,
            p,
        )),
{
    let mut r: Vec<ChunkPos> = Vec::new();
    let mut i: usize = 0;
    while i < v.len()
        invariant
            0 <= i <= v@.len(),
            0 <= radius,
            forall|p: ChunkPos| r@.contains(p) <==> (v@.take(i as int).contains(p) && in_window(
                center,
                radius as int,
                p,
            )),
        decreases v@.len() - i,
    {
        let cur = v[i];
        if window_contains(center, radius, cur) {
            r.push(cur);
        }
        proof {
            assert(v@.take(i + 1).drop_last() =~= v@.take(i as int));
            assert(v@.take(i + 1).last() == cur);
            assert forall|p: ChunkPos| v@.take(i + 1).contains(p) implies (p == cur || v@.take(
                i as int,
            ).contains(p)) by {
                if p != cur {
                    let a = choose|a: int| 0 <= a < i + 1 && #[trigger] v@.take(i + 1)[a] == p;
                    assert(v@.take(i as int)[a] == v@.take(i + 1)[a]);
                }
            }
            assert forall|p: ChunkPos| v@.take(i as int).contains(p) implies v@.take(
                i + 1,
            ).contains(p) by {
                let a = choose|a: int| 0 <= a < i && #[trigger] v@.take(i as int)[a] == p;
                assert(v@.take(i + 1)[a] == p);
            }
            assert(v@.take(i + 1).contains(cur));
        }
        i = i + 1;
    }
    proof {
        assert(v@.take(v@.len() as int) =~= v@);
    }
    r
}

/// Sorts coordinates into send order around `center` by insertion, keeping
/// exactly the same entries.
fn sort_pending(v: &mut Vec<ChunkPos>, center: ChunkPos)
    ensures
        final(v)@.to_multiset() == old(v)@.to_multiset(),
        final(v)@.len() == old(v)@.len(),
        sorted_for(center, final(v)@),
{
    if v.len() <= 1 {
        return ;
    }
    let mut i: usize = 1;
    while i < v.len()
        invariant
            1 <= i <= v@.len(),
            v@.to_multiset() == old(v)@.to_multiset(),
            v@.len() == old(v)@.len(),
            sorted_for(center, v@.take(i as int)),
        decreases v@.len() - i,
    {
        let mut j: usize = i;
        proof {
            assert forall|a: int, b: int| 0 <= a < b <= i && b != j implies chunk_le(
                center,
                #[trigger] v@[a],
                #[trigger] v@[b],
            ) by {
                assert(v@.take(i as int)[a] == v@[a]);
                assert(v@.take(i as int)[b] == v@[b]);
            }
        }
        while j > 0 && chunk_before(center, v[j], v[j - 1])
            invariant
                0 <= j <= i < v@.len(),
                v@.to_multiset() == old(v)@.to_multiset(),
                v@.len() == old(v)@.len(),
                forall|a: int, b: int|
                    0 <= a < b <= i && b != j ==> chunk_le(center, #[trigger] v@[a], #[trigger] v@[b]),
                forall|b: int| j < b <= i ==> chunk_le(center, v@[j as int], #[trigger] v@[b]),
            decreases j,
        {
            let ghost prev = v@;
            let x = v[j];
            let y = v[j - 1];
            v[j - 1] = x;
            v[j] = y;
            proof {
                assert(v@ == prev.update(j - 1, x).update(j as int, y));
                assert(v@.to_multiset() =~= prev.to_multiset());
                assert forall|a: int, b: int|
                    0 <= a < b <= i && b != j - 1 implies chunk_le(
                    center,
                    v@[a],
                    v@[b],
                ) by {
                    if a == j - 1 {
                        if b == j {
                        } else {
                            lemma_chunk_le_transitive(center, v@[a], prev[j - 1], v@[b]);
                        }
                    }
                }
                assert forall|b: int| j - 1 < b <= i implies chunk_le(
                    center,
                    v@[j - 1],
                    #[trigger] v@[b],
                ) by {
                    if b != j {
                        lemma_chunk_le_transitive(center, v@[j - 1], prev[j - 1], v@[b]);
                    }
                }
            }
            j = j - 1;
        }
        proof {
            if j > 0 {
                lemma_chunk_le_total(center, v@[j as int], v@[j - 1]);
            }
            assert forall|a: int, b: int| 0 <= a < b <= i + 1 - 1 implies chunk_le(
                center,
                v@[a],
                v@[b],
            ) by {
                if b == j && j > 0 && a < j - 1 {
                    lemma_chunk_le_transitive(center, v@[a], v@[j - 1], v@[b]);
                }
            }
            assert forall|a: int, b: int| 0 <= a < b < i + 1 implies chunk_le(
                center,
                #[trigger] v@.take(i + 1)[a],
                #[trigger] v@.take(i + 1)[b],
            ) by {
                assert(v@.take(i + 1)[a] == v@[a]);
                assert(v@.take(i + 1)[b] == v@[b]);
            }
            assert(sorted_for(center, v@.take(i + 1)));
        }
        i = i + 1;
    }
    proof {
        assert(v@.take(v@.len() as int) =~= v@);
    }
}

/// Removes adjacent equal coordinates from a sequence already in send
/// order: the result holds exactly the distinct coordinates of the input,
/// still in send order.
fn dedup_sorted(v: &Vec<ChunkPos>, center: ChunkPos) -> (r: Vec<ChunkPos>)
    requires
        sorted_for(center, v@),
    ensures
        sorted_for(center, r@),
        r@.no_duplicates(),
        forall|p: ChunkPos| r@.contains(p) <==> v@.contains(p),
{
    let mut r: Vec<ChunkPos> = Vec::new();
    let mut i: usize = 0;
    while i < v.len()
        invariant
            0 <= i <= v@.len(),
            sorted_for(center, v@),
            sorted_for(center, r@),
            r@.no_duplicates(),
            forall|p: ChunkPos| r@.contains(p) <==> v@.take(i as int).contains(p),
            i > 0 ==> r@.len() > 0 && r@.last() == v@[i - 1],
            forall|m: int| 0 <= m < r@.len() ==> v@.take(i as int).contains(#[trigger] r@[m]),
        decreases v@.len() - i,
    {
        let cur = v[i];
        let ghost prefix = v@.take(i as int);
        let ghost r0 = r@;
        let keep: bool = if r.len() == 0 {
            true
        } else {
            let last = r[r.len() - 1];
            !(last.x == cur.x && last.z == cur.z)
        };
        if keep {
            proof {
                if r@.len() > 0 {
                    assert forall|m: int| 0 <= m < r@.len() implies r@[m] != cur by {
                        if r@[m] == cur {
                            assert(v@.take(i as int).contains(r@[m]));
                            let a = choose|a: int| 0 <= a < i && #[trigger] prefix[a] == cur;
                            assert(prefix[a] == v@[a]);
                            assert(chunk_le(center, v@[a], v@[i - 1]));
                            assert(chunk_le(center, v@[i - 1], v@[i as int]));
                            lemma_chunk_le_antisymmetric(center, v@[i - 1], cur);
                        }
                    }
                }
                assert forall|m: int| 0 <= m < r@.len() implies chunk_le(
                    center,
                    #[trigger] r@[m],
                    cur,
                ) by {
                    assert(v@.take(i as int).contains(r@[m]));
                    let a = choose|a: int| 0 <= a < i && #[trigger] prefix[a] == r@[m];
                    assert(prefix[a] == v@[a]);
                    if a < i - 1 {
                        lemma_chunk_le_transitive(center, v@[a], v@[i - 1], v@[i as int]);
                    }
                }
            }
            r.push(cur);
        }
        proof {
            assert(r@[r@.len() - 1] == cur);
            assert(r@.contains(cur));
            assert forall|p: ChunkPos| v@.take(i + 1).contains(p) implies r@.contains(p) by {
                if p != cur {
                    let a = choose|a: int| 0 <= a < i + 1 && #[trigger] v@.take(i + 1)[a] == p;
                    assert(v@.take(i + 1)[a] == v@[a]);
                    assert(v@.take(i + 1)[i as int] == cur);
                    assert(a < i);
                    assert(prefix[a] == v@[a]);
                    assert(prefix.contains(p));
                    assert(r0.contains(p));
                    let m = choose|m: int| 0 <= m < r0.len() && #[trigger] r0[m] == p;
                    assert(r@[m] == p);
                }
            }
            assert forall|p: ChunkPos| r@.contains(p) implies v@.take(i + 1).contains(p) by {
                if p == cur {
                    assert(v@.take(i + 1)[i as int] == cur);
                } else {
                    let m = choose|m: int| 0 <= m < r@.len() && #[trigger] r@[m] == p;
                    assert(m < r0.len() && r0[m] == p);
                    assert(r0.contains(p));
                    assert(prefix.contains(p));
                    let a = choose|a: int| 0 <= a < i && #[trigger] prefix[a] == p;
                    assert(v@.take(i + 1)[a] == v@[a] && prefix[a] == v@[a]);
                }
            }
        }
        i = i + 1;
    }
    proof {
        assert(v@.take(v@.len() as int) =~= v@);
    }
    r
}

/// Appends every coordinate of `src` to `dst`.
fn append_positions(dst: &mut Vec<ChunkPos>, src: &Vec<ChunkPos>)
    ensures
        final(dst)@ == old(dst)@ + src@,
{
    let mut k: usize = 0;
    while k < src.len()
        invariant
            0 <= k <= src@.len(),
            dst@ == old(dst)@ + src@.take(k as int),
        decreases src@.len() - k,
    {
        dst.push(src[k]);
        proof {
            assert(dst@ =~= old(dst)@ + src@.take(k + 1));
        }
        k = k + 1;
    }
    proof {
        assert(dst@ =~= old(dst)@ + src@);
    }
}

/// A coordinate is in a concatenation exactly when it is in one of the
/// parts.
proof fn lemma_contains_concat(a: Seq<ChunkPos>, b: Seq<ChunkPos>, p: ChunkPos)
    ensures
        (a + b).contains(p) <==> (a.contains(p) || b.contains(p)),
{
    if (a + b).contains(p) {
        let i = choose|i: int| 0 <= i < (a + b).len() && #[trigger] (a + b)[i] == p;
        if i < a.len() {
            assert(a[i] == p);
        } else {
            assert(b[i - a.len()] == p);
        }
    }
    if a.contains(p) {
        let i = choose|i: int| 0 <= i < a.len() && #[trigger] a[i] == p;
        assert((a + b)[i] == p);
    }
    if b.contains(p) {
        let i = choose|i: int| 0 <= i < b.len() && #[trigger] b[i] == p;
        assert((a + b)[a.len() + i] == p);
    }
}

/// Change detection for one connection whose view center moved from
/// `last_sent` to `current`.
///
/// When the center is unchanged nothing happens. Otherwise the pending set
/// is pruned to the liberal window around the new center, the coordinates
/// newly visible around `current` but not visible around the old center are
/// added, and the set is sorted farthest first and deduplicated. The result
/// says whether the center moved, in which case the caller owes the client a
/// view-center update.
pub fn generate_chunk_changes(
    queue: &mut ChunkSendQueue,
    last_sent: &mut ChunkPos,
    current: ChunkPos,
    radius: i16,
) -> (moved: bool)
    requires
        0 <= radius,
        current.x - radius >= -0x8000,
        current.x + radius <= 0x8000,
        current.z - radius >= -0x8000,
        current.z + radius <= 0x8000,
    ensures
        moved == (*old(last_sent) != current),
        !moved ==> *final(last_sent) == *old(last_sent) && final(queue).pending() == old(
            queue,
        ).pending(),
        moved ==> *final(last_sent) == current && {
            let q = final(queue).pending();
            &&& sorted_for(current, q)
            &&& q.no_duplicates()
            &&& forall|p: ChunkPos|
                q.contains(p) <==> ((old(queue).pending().contains(p) && in_window(
                    current,
                    radius + 2,
                    p,
                )) || (in_window(current, radius as int, p) && !in_window(
                    *old(last_sent),
                    radius as int,
                    p,
                )))
        },
{
    if last_sent.x == current.x && last_sent.z == current.z {
        return false;
    }
    let last = *last_sent;
    *last_sent = current;
    let lib: i32 = radius as i32 + 2;
    let mut work = retain_window(&queue.changes, current, lib);
    let added = window_diff(current, last, radius as i32);
    let ghost kept_view = work@;
    append_positions(&mut work, &added);
    proof {
        assert forall|p: ChunkPos| work@.contains(p) <==> (kept_view.contains(p)
            || added@.contains(p)) by {
            lemma_contains_concat(kept_view, added@, p);
        }
    }
    let ghost before_sort = work@;
    sort_pending(&mut work, current);
    proof {
        assert forall|p: ChunkPos| work@.contains(p) <==> before_sort.contains(p) by {
            assert(work@.to_multiset().count(p) == before_sort.to_multiset().count(p));
        }
    }
    let deduped = dedup_sorted(&work, current);
    queue.changes = deduped;
    true
}

/// The per-connection working set of pending chunk coordinates.
pub struct ChunkSendQueue {
    changes: Vec<ChunkPos>,
}

impl Default for ChunkSendQueue {
    /// A queue with nothing pending.
    fn default() -> (r: ChunkSendQueue)
        ensures
            r.pending() == Seq::<ChunkPos>::empty(),
    {
        ChunkSendQueue { changes: Vec::new() }
    }
}

impl ChunkSendQueue {
    /// The pending coordinates, in their stored order; the send phase pops
    /// from the end.
    pub closed spec fn pending(self) -> Seq<ChunkPos> {
        self.changes@
    }

    /// How many coordinates are pending.
    pub fn len(&self) -> (r: usize)
        ensures
            r == self.pending().len(),
    {
        self.changes.len()
    }

    /// Records one more pending coordinate at the end, with no other upkeep;
    /// the next change-detection pass sorts and deduplicates.
    pub fn push(&mut self, pos: ChunkPos)
        ensures
            final(self).pending() == old(self).pending().push(pos),
    {
        self.changes.push(pos);
    }

    /// The pending coordinate at `i`.
    pub fn at(&self, i: usize) -> (r: ChunkPos)
        requires
            i < self.pending().len(),
        ensures
            r == self.pending()[i as int],
    {
        self.changes[i]
    }
}

/// Which chunk columns the external cache currently holds ready to send.
/// The cache itself loads chunks in the background; the scheduler only asks
/// whether a column's bytes are resident.
pub struct ChunkCacheView {
    loaded: Vec<ChunkPos>,
}

impl Default for ChunkCacheView {
    /// A view with no chunk resident.
    fn default() -> (r: ChunkCacheView)
        ensures
            r.loaded_set() == Set::<ChunkPos>::empty(),
    {
        let r = ChunkCacheView { loaded: Vec::new() };
        proof {
            assert(r.loaded_set() =~= Set::<ChunkPos>::empty());
        }
        r
    }
}

impl ChunkCacheView {
    /// The set of columns whose serialized bytes are resident.
    pub closed spec fn loaded_set(self) -> Set<ChunkPos> {
        self.loaded@.to_set()
    }

    /// Marks a column as resident.
    pub fn mark_loaded(&mut self, pos: ChunkPos)
        ensures
            final(self).loaded_set() == old(self).loaded_set().insert(pos),
    {
        self.loaded.push(pos);
        proof {
            assert(self.loaded@.drop_last() =~= old(self).loaded@);
            assert(self.loaded@.last() == pos);
            assert forall|p: ChunkPos| self.loaded_set().contains(p) <==> old(
                self,
            ).loaded_set().insert(pos).contains(p) by {
                if p != pos {
                    if self.loaded@.contains(p) {
                        let a = choose|a: int|
                            0 <= a < self.loaded@.len() && #[trigger] self.loaded@[a] == p;
                        assert(old(self).loaded@[a] == p);
                    }
                    if old(self).loaded@.contains(p) {
                        let a = choose|a: int|
                            0 <= a < old(self).loaded@.len() && #[trigger] old(
                                self,
                            ).loaded@[a] == p;
                        assert(self.loaded@[a] == p);
                    }
                }
            }
            assert(self.loaded_set() =~= old(self).loaded_set().insert(pos));
        }
    }

    /// Whether a column's bytes are resident.
    pub fn is_loaded(&self, pos: ChunkPos) -> (r: bool)
        ensures
            r == self.loaded_set().contains(pos),
    {
        let mut i: usize = 0;
        while i < self.loaded.len()
            invariant
                0 <= i <= self.loaded@.len(),
                forall|a: int| 0 <= a < i ==> #[trigger] self.loaded@[a] != pos,
            decreases self.loaded@.len() - i,
        {
            let cur = self.loaded[i];
            if cur.x == pos.x && cur.z == pos.z {
                proof {
                    assert(self.loaded@.contains(pos));
                }
                return true;
            }
            i = i + 1;
        }
        proof {
            if self.loaded@.to_set().contains(pos) {
                let a = choose|a: int|
                    0 <= a < self.loaded@.len() && #[trigger] self.loaded@[a] == pos;
            }
        }
        false
    }
}

/// What one send phase does to a pending sequence, walking from the end:
/// an entry equal to the one examined just before it is dropped as a
/// duplicate without costing budget; once the budget is spent the rest is
/// kept; a loaded entry is sent and removed; an entry still loading is kept
/// for a later tick. The result is the pair of the sent coordinates, in
/// send order, and the coordinates still pending, in their stored order.
pub open spec fn spec_send_walk(
    q: Seq<ChunkPos>,
    loaded: Set<ChunkPos>,
    last: Option<ChunkPos>,
    budget: nat,
) -> (Seq<ChunkPos>, Seq<ChunkPos>)
    decreases q.len(),
{
    if q.len() == 0 {
        (Seq::empty(), Seq::empty())
    } else {
        let e = q.last();
        if last == Some(e) {
            spec_send_walk(q.drop_last(), loaded, last, budget)
        } else if budget == 0 {
            (Seq::empty(), q)
        } else if loaded.contains(e) {
            let w = spec_send_walk(q.drop_last(), loaded, Some(e), (budget - 1) as nat);
            (seq![e] + w.0, w.1)
        } else {
            let w = spec_send_walk(q.drop_last(), loaded, Some(e), budget);
            (w.0, w.1.push(e))
        }
    }
}

/// One send phase never sends more coordinates than its budget.
pub proof fn lemma_send_walk_budget(
    q: Seq<ChunkPos>,
    loaded: Set<ChunkPos>,
    last: Option<ChunkPos>,
    budget: nat,
)
    ensures
        spec_send_walk(q, loaded, last, budget).0.len() <= budget,
    decreases q.len(),
{
    if q.len() == 0 {
    } else {
        let e = q.last();
        if last == Some(e) {
            lemma_send_walk_budget(q.drop_last(), loaded, last, budget);
        } else if budget == 0 {
        } else if loaded.contains(e) {
            lemma_send_walk_budget(q.drop_last(), loaded, Some(e), (budget - 1) as nat);
        } else {
            lemma_send_walk_budget(q.drop_last(), loaded, Some(e), budget);
        }
    }
}

/// When every pending coordinate is loaded and none repeats, one send phase
/// sends exactly the last `min(budget, len)` coordinates, in reverse stored
/// order, and keeps exactly the stored prefix before them.
pub proof fn lemma_send_walk_all_loaded(
    q: Seq<ChunkPos>,
    loaded: Set<ChunkPos>,
    last: Option<ChunkPos>,
    budget: nat,
)
    requires
        q.no_duplicates(),
        forall|i: int| 0 <= i < q.len() ==> loaded.contains(#[trigger] q[i]),
        last matches Some(l) ==> !q.contains(l),
    ensures
        ({
            let m = if budget < q.len() {
                budget as int
            } else {
                q.len() as int
            };
            let w = spec_send_walk(q, loaded, last, budget);
            w.0 == q.skip(q.len() - m).reverse() && w.1 == q.take(q.len() - m)
        }),
    decreases q.len(),
{
    let m = if budget < q.len() {
        budget as int
    } else {
        q.len() as int
    };
    let w = spec_send_walk(q, loaded, last, budget);
    if q.len() == 0 {
        assert(w.0 =~= q.skip(q.len() - m).reverse());
        assert(w.1 =~= q.take(q.len() - m));
    } else {
        let e = q.last();
        assert(q.contains(e));
        match last {
            Some(l) => {
                assert(l != e);
            },
            None => {},
        }
        if budget == 0 {
            assert(q.skip(q.len() as int).reverse() =~= Seq::<ChunkPos>::empty());
            assert(w.0 =~= q.skip(q.len() - m).reverse());
            assert(w.1 =~= q.take(q.len() - m));
        } else {
            assert(loaded.contains(e)) by {
                assert(q[q.len() - 1] == e);
            }
            let t = q.drop_last();
            assert(forall|i: int| 0 <= i < t.len() ==> t[i] == q[i] && loaded.contains(
                #[trigger] t[i],
            ));
            assert(!t.contains(e)) by {
                if t.contains(e) {
                    let a = choose|a: int| 0 <= a < t.len() && #[trigger] t[a] == e;
                    assert(q[a] == q[q.len() - 1]);
                }
            }
            lemma_send_walk_all_loaded(t, loaded, Some(e), (budget - 1) as nat);
            let m2 = if budget - 1 < t.len() {
                budget - 1
            } else {
                t.len() as int
            };
            assert(m2 == m - 1);
            let w2 = spec_send_walk(t, loaded, Some(e), (budget - 1) as nat);
            assert(w.0 == seq![e] + w2.0 && w.1 == w2.1);
            assert(w2.0 == t.skip(t.len() - m2).reverse());
            assert(seq![e] + t.skip(q.len() - m).reverse() =~= q.skip(q.len() - m).reverse());
            assert(t.take(q.len() - m) =~= q.take(q.len() - m));
        }
    }
}

/// When no pending coordinate repeats, one send phase sends each coordinate
/// at most once, sends only pending coordinates, and keeps only pending
/// coordinates with no repeats.
pub proof fn lemma_send_walk_no_duplicates(
    q: Seq<ChunkPos>,
    loaded: Set<ChunkPos>,
    last: Option<ChunkPos>,
    budget: nat,
)
    requires
        q.no_duplicates(),
        last matches Some(l) ==> !q.contains(l),
    ensures
        ({
            let w = spec_send_walk(q, loaded, last, budget);
            &&& w.0.no_duplicates()
            &&& w.1.no_duplicates()
            &&& forall|p: ChunkPos| w.0.contains(p) ==> q.contains(p)
            &&& forall|p: ChunkPos| w.1.contains(p) ==> q.contains(p)
        }),
    decreases q.len(),
{
    let w = spec_send_walk(q, loaded, last, budget);
    if q.len() == 0 {
    } else {
        let e = q.last();
        assert(q.contains(e)) by {
            assert(q[q.len() - 1] == e);
        }
        match last {
            Some(l) => {
                assert(l != e);
            },
            None => {},
        }
        let t = q.drop_last();
        assert(forall|i: int| 0 <= i < t.len() ==> #[trigger] t[i] == q[i]);
        assert(forall|p: ChunkPos| t.contains(p) ==> q.contains(p)) by {
            assert forall|p: ChunkPos| t.contains(p) implies q.contains(p) by {
                let a = choose|a: int| 0 <= a < t.len() && #[trigger] t[a] == p;
                assert(q[a] == p);
            }
        }
        assert(!t.contains(e)) by {
            if t.contains(e) {
                let a = choose|a: int| 0 <= a < t.len() && #[trigger] t[a] == e;
                assert(q[a] == q[q.len() - 1]);
            }
        }
        if budget == 0 {
        } else {
            lemma_send_walk_no_duplicates(t, loaded, Some(e), if loaded.contains(e) {
                (budget - 1) as nat
            } else {
                budget
            });
            let w2 = spec_send_walk(t, loaded, Some(e), if loaded.contains(e) {
                (budget - 1) as nat
            } else {
                budget
            });
            if loaded.contains(e) {
                assert(w.0 == seq![e] + w2.0 && w.1 == w2.1);
                assert(!w2.0.contains(e));
                assert forall|p: ChunkPos| w.0.contains(p) implies q.contains(p) by {
                    let a = choose|a: int| 0 <= a < w.0.len() && #[trigger] w.0[a] == p;
                    if a > 0 {
                        assert(w2.0[a - 1] == p);
                    }
                }
                assert forall|a: int, b: int| 0 <= a < b < w.0.len() implies w.0[a]
                    != w.0[b] by {
                    if a == 0 {
                        assert(w2.0[b - 1] == w.0[b]);
                        assert(w2.0.contains(w2.0[b - 1]));
                    } else {
                        assert(w2.0[a - 1] == w.0[a] && w2.0[b - 1] == w.0[b]);
                    }
                }
            } else {
                assert(w.0 == w2.0 && w.1 == w2.1.push(e));
                assert(!w2.1.contains(e));
                assert forall|a: int, b: int| 0 <= a < b < w.1.len() implies w.1[a]
                    != w.1[b] by {
                    if b == w.1.len() - 1 {
                        assert(w2.1[a] == w.1[a]);
                        assert(w2.1.contains(w2.1[a]));
                    } else {
                        assert(w2.1[a] == w.1[a] && w2.1[b] == w.1[b]);
                    }
                }
            }
        }
    }
}

/// A send phase keeps the pending remainder in send order: what stays
/// pending is a subsequence of the queue, still sorted around the center.
/// With the no-duplicates lemma this chains across ticks: a queue the
/// change-detection pass left sorted and duplicate-free drains nearest
/// first on this tick, and the remainder drains nearest first on the next.
pub proof fn lemma_send_walk_keeps_order(
    center: ChunkPos,
    q: Seq<ChunkPos>,
    loaded: Set<ChunkPos>,
    last: Option<ChunkPos>,
    budget: nat,
)
    requires
        sorted_for(center, q),
    ensures
        ({
            let w = spec_send_walk(q, loaded, last, budget);
            &&& sorted_for(center, w.1)
            &&& forall|p: ChunkPos| w.1.contains(p) ==> q.contains(p)
        }),
    decreases q.len(),
{
    let w = spec_send_walk(q, loaded, last, budget);
    if q.len() == 0 {
    } else {
        let e = q.last();
        let t = q.drop_last();
        assert(forall|i: int| 0 <= i < t.len() ==> #[trigger] t[i] == q[i]);
        assert(sorted_for(center, t)) by {
            assert forall|i: int, j: int| 0 <= i < j < t.len() implies chunk_le(
                center,
                #[trigger] t[i],
                #[trigger] t[j],
            ) by {
                assert(t[i] == q[i] && t[j] == q[j]);
            }
        }
        assert(forall|p: ChunkPos| t.contains(p) ==> q.contains(p)) by {
            assert forall|p: ChunkPos| t.contains(p) implies q.contains(p) by {
                let a = choose|a: int| 0 <= a < t.len() && #[trigger] t[a] == p;
                assert(q[a] == p);
            }
        }
        if last == Some(e) {
            lemma_send_walk_keeps_order(center, t, loaded, last, budget);
        } else if budget == 0 {
        } else if loaded.contains(e) {
            lemma_send_walk_keeps_order(center, t, loaded, Some(e), (budget - 1) as nat);
        } else {
            lemma_send_walk_keeps_order(center, t, loaded, Some(e), budget);
            let w2 = spec_send_walk(t, loaded, Some(e), budget);
            assert(w.1 == w2.1.push(e));
            assert(q.contains(e)) by {
                assert(q[q.len() - 1] == e);
            }
            assert forall|i: int, j: int| 0 <= i < j < w.1.len() implies chunk_le(
                center,
                #[trigger] w.1[i],
                #[trigger] w.1[j],
            ) by {
                if j < w.1.len() - 1 {
                    assert(w.1[i] == w2.1[i] && w.1[j] == w2.1[j]);
                } else {
                    assert(w.1[i] == w2.1[i]);
                    assert(w2.1.contains(w2.1[i]));
                    assert(t.contains(w2.1[i]));
                    let a = choose|a: int| 0 <= a < t.len() && #[trigger] t[a] == w2.1[i];
                    assert(q[a] == w2.1[i]);
                    assert(chunk_le(center, q[a], q[q.len() - 1]));
                }
            }
        }
    }
}

/// Around a queue in send order whose coordinates are all loaded and
/// distinct, the coordinates go out nearest first.
pub proof fn lemma_send_walk_nearest_first(
    center: ChunkPos,
    q: Seq<ChunkPos>,
    loaded: Set<ChunkPos>,
    budget: nat,
)
    requires
        sorted_for(center, q),
        q.no_duplicates(),
        forall|i: int| 0 <= i < q.len() ==> loaded.contains(#[trigger] q[i]),
    ensures
        ({
            let sent = spec_send_walk(q, loaded, None, budget).0;
            forall|i: int, j: int|
                0 <= i < j < sent.len() ==> chunk_le(center, #[trigger] sent[j], #[trigger] sent[i])
        }),
{
    lemma_send_walk_all_loaded(q, loaded, None, budget);
    let m = if budget < q.len() {
        budget as int
    } else {
        q.len() as int
    };
    let sent = spec_send_walk(q, loaded, None, budget).0;
    assert forall|i: int, j: int| 0 <= i < j < sent.len() implies chunk_le(
        center,
        #[trigger] sent[j],
        #[trigger] sent[i],
    ) by {
        let tail = q.skip(q.len() - m);
        assert(sent[i] == tail[tail.len() - 1 - i]);
        assert(sent[j] == tail[tail.len() - 1 - j]);
        assert(tail[tail.len() - 1 - j] == q[q.len() - 1 - j]);
        assert(tail[tail.len() - 1 - i] == q[q.len() - 1 - i]);
    }
}

/// The send phase for one connection and one tick: pops up to `budget`
/// pending coordinates from the end, nearest first when the queue is in
/// send order, and returns the ones whose chunk bytes the cache holds;
/// those still loading stay pending, and an entry equal to the one examined
/// just before it is dropped without being sent or counted.
pub fn send_full_loaded_chunks(
    queue: &mut ChunkSendQueue,
    cache: &ChunkCacheView,
    budget: usize,
) -> (sent: Vec<ChunkPos>)
    ensures
        ({
            let w = spec_send_walk(old(queue).pending(), cache.loaded_set(), None, budget as nat);
            sent@ == w.0 && final(queue).pending() == w.1
        }),
{
    let ghost q = queue.pending();
    let ghost loaded = cache.loaded_set();
    let mut sent: Vec<ChunkPos> = Vec::new();
    let mut kept_rev: Vec<ChunkPos> = Vec::new();
    let mut last: Option<ChunkPos> = None;
    let mut count: usize = 0;
    let mut idx: usize = queue.changes.len();
    let mut stopped = false;
    proof {
        assert(q.take(q.len() as int) =~= q);
        let w = spec_send_walk(q, loaded, None, budget as nat);
        assert(Seq::<ChunkPos>::empty() + w.0 =~= w.0);
        assert(kept_rev@.reverse() =~= Seq::<ChunkPos>::empty());
        assert(w.1 + kept_rev@.reverse() =~= w.1);
        assert(sent@ + w.0 =~= w.0);
    }
    while idx > 0 && !stopped
        invariant
            0 <= idx <= q.len(),
            q == queue.pending(),
            loaded == cache.loaded_set(),
            count <= budget,
            ({
                let w = spec_send_walk(q, loaded, None, budget as nat);
                let rest = spec_send_walk(
                    q.take(idx as int),
                    loaded,
                    last,
                    (budget - count) as nat,
                );
                &&& !stopped ==> w.0 == sent@ + rest.0 && w.1 == rest.1 + kept_rev@.reverse()
                &&& stopped ==> w.0 == sent@ && w.1 == q.take(idx as int) + kept_rev@.reverse()
            }),
        decreases idx + if stopped { 0int } else { 1int },
    {
        let e = queue.changes[idx - 1];
        proof {
            assert(q.take(idx as int).last() == e);
            assert(q.take(idx as int).drop_last() =~= q.take(idx - 1));
        }
        let is_dup: bool = match last {
            Some(l) => l.x == e.x && l.z == e.z,
            None => false,
        };
        if is_dup {
            proof {
                assert(last == Some(e));
            }
            idx = idx - 1;
        } else if count == budget {
            stopped = true;
            proof {
                let rest = spec_send_walk(q.take(idx as int), loaded, last, 0);
                assert(rest.0 =~= Seq::<ChunkPos>::empty());
                assert(sent@ + rest.0 =~= sent@);
            }
        } else if cache.is_loaded(e) {
            sent.push(e);
            count = count + 1;
            last = Some(e);
            idx = idx - 1;
            proof {
                let rest = spec_send_walk(q.take(idx as int), loaded, last, (budget
                    - count) as nat);
                assert(sent@.drop_last() + (seq![e] + rest.0) =~= sent@ + rest.0);
            }
        } else {
            kept_rev.push(e);
            last = Some(e);
            idx = idx - 1;
            proof {
                let rest = spec_send_walk(q.take(idx as int), loaded, last, (budget
                    - count) as nat);
                assert((rest.1.push(e)) + kept_rev@.drop_last().reverse() =~= rest.1
                    + kept_rev@.reverse());
            }
        }
    }
    proof {
        if !stopped {
            assert(idx == 0);
            assert(q.take(0) =~= Seq::<ChunkPos>::empty());
            let w = spec_send_walk(q, loaded, None, budget as nat);
            let rest = spec_send_walk(q.take(0), loaded, last, (budget - count) as nat);
            assert(rest.0 =~= Seq::<ChunkPos>::empty());
            assert(rest.1 =~= Seq::<ChunkPos>::empty());
            assert(sent@ + rest.0 =~= sent@);
            assert(rest.1 + kept_rev@.reverse() =~= q.take(idx as int) + kept_rev@.reverse());
        }
    }
    let stop_at = idx;
    self_truncate(&mut queue.changes, stop_at);
    while kept_rev.len() > 0
        invariant
            queue.pending() + kept_rev@.reverse() == spec_send_walk(
                q,
                loaded,
                None,
                budget as nat,
            ).1,
        decreases kept_rev@.len(),
    {
        let ghost before = kept_rev@;
        let p = kept_rev.pop().unwrap();
        queue.changes.push(p);
        proof {
            assert(before.reverse() =~= seq![p] + kept_rev@.reverse());
            assert(queue.pending().drop_last() + (seq![p] + kept_rev@.reverse())
                =~= queue.pending() + kept_rev@.reverse());
        }
    }
    proof {
        assert(kept_rev@.reverse() =~= Seq::<ChunkPos>::empty());
        assert(queue.pending() + kept_rev@.reverse() =~= queue.pending());
    }
    sent
}

/// Truncates the pending vector to its first `len` entries.
fn self_truncate(v: &mut Vec<ChunkPos>, len: usize)
    requires
        len <= old(v)@.len(),
    ensures
        final(v)@ == old(v)@.take(len as int),
{
    v.truncate(len);
    proof {
        assert(v@ =~= old(v)@.take(len as int));
    }
}

} // verus!
