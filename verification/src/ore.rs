//! Ore replacement: weighted ore picks and grouping of connected blocks.
//!
//! Scanned marker blocks are grouped into connected veins; each vein draws
//! one ore kind, and each block of the vein then draws what it actually
//! becomes, so that veins look mostly uniform with stone mixed in.

use vstd::prelude::*;
use vstd::seq_lib::lemma_seq_contains_after_push;

verus! {

broadcast use lemma_seq_contains_after_push;

/// The block kinds the replacement deals in.
#[derive(Clone, Copy, Debug, PartialEq, Eq, Structural)]
pub enum BlockKind {
    /// Coal ore.
    CoalOre,
    /// Copper ore.
    CopperOre,
    /// Iron ore.
    IronOre,
    /// Gold ore.
    GoldOre,
    /// Emerald ore.
    EmeraldOre,
    /// Plain stone.
    Stone,
    /// Cobblestone.
    Cobblestone,
}

/// The total weight of the ore table: every roll is drawn below it.
pub const ORE_WEIGHT_TOTAL: u32 = 31;

/// The number of parts a vein block's roll is drawn from.
pub const VEIN_PARTS: u32 = 10;

/// Relies on fastrand's thread-local generator: a draw from `0..n` is always
/// below `n`; which value comes back depends on the generator's state.
#[verifier::external_body]
fn random_below(n: u32) -> (r: u32)
    requires
        n > 0,
    ensures
        r < n,
{
    fastrand::u32(0..n)
}

/// The ore kind a roll buys, with weights roughly following natural ore
/// distribution: coal 16, copper 8, iron 4, gold 2, emerald 1 of 31.
pub open spec fn spec_pick_ore(roll: int) -> BlockKind {
    if roll < 16 {
        BlockKind::CoalOre
    } else if roll < 24 {
        BlockKind::CopperOre
    } else if roll < 28 {
        BlockKind::IronOre
    } else if roll < 30 {
        BlockKind::GoldOre
    } else if roll < 31 {
        BlockKind::EmeraldOre
    } else {
        BlockKind::Stone
    }
}

/// The ore kind that a given roll below the table's total weight buys.
pub fn pick_ore_from_roll(roll: u32) -> (r: BlockKind)
    ensures
        r == spec_pick_ore(roll as int),
{
    if roll < 16 {
        BlockKind::CoalOre
    } else if roll < 24 {
        BlockKind::CopperOre
    } else if roll < 28 {
        BlockKind::IronOre
    } else if roll < 30 {
        BlockKind::GoldOre
    } else if roll < 31 {
        BlockKind::EmeraldOre
    } else {
        BlockKind::Stone
    }
}

/// Draws a random ore for a vein. Whatever the generator returns, the
/// result is one of the five ores of the table.
pub fn pick_ore() -> (r: BlockKind)
    ensures
        r == BlockKind::CoalOre || r == BlockKind::CopperOre || r == BlockKind::IronOre || r
            == BlockKind::GoldOre || r == BlockKind::EmeraldOre,
{
    let roll = random_below(ORE_WEIGHT_TOTAL);
    pick_ore_from_roll(roll)
}

/// What a block of a vein whose ore is `ore` becomes for a given roll:
/// stone five parts in ten, cobblestone three, the vein's ore two.
pub open spec fn spec_pick_given_ore(ore: BlockKind, roll: int) -> BlockKind {
    if roll < 5 {
        BlockKind::Stone
    } else if roll < 8 {
        BlockKind::Cobblestone
    } else {
        ore
    }
}

/// What a block of a vein becomes for a given roll.
pub fn pick_given_ore_from_roll(ore: BlockKind, roll: u32) -> (r: BlockKind)
    ensures
        r == spec_pick_given_ore(ore, roll as int),
{
    if roll < 5 {
        BlockKind::Stone
    } else if roll < 8 {
        BlockKind::Cobblestone
    } else {
        ore
    }
}

/// Draws what a block of a vein becomes. Whatever the generator returns,
/// the result is stone, cobblestone, or the vein's ore.
pub fn pick_given_ore(ore: BlockKind) -> (r: BlockKind)
    ensures
        r == BlockKind::Stone || r == BlockKind::Cobblestone || r == ore,
{
    let roll = random_below(VEIN_PARTS);
    pick_given_ore_from_roll(ore, roll)
}

/// A block position in 3D space.
#[derive(Clone, Copy, Debug, PartialEq, Eq, Structural, Hash)]
pub struct Pos3 {
    /// The position's x coordinate.
    pub x: i32,
    /// The position's y coordinate.
    pub y: i32,
    /// The position's z coordinate.
    pub z: i32,
}

/// The magnitude of an integer.
pub open spec fn abs1(v: int) -> int {
    if v < 0 {
        -v
    } else {
        v
    }
}

/// Whether two positions touch along exactly one axis.
pub open spec fn adjacent(a: Pos3, b: Pos3) -> bool {
    abs1(a.x - b.x) + abs1(a.y - b.y) + abs1(a.z - b.z) == 1
}

/// Decides whether two positions touch.
pub fn is_adjacent(a: Pos3, b: Pos3) -> (r: bool)
    ensures
        r == adjacent(a, b),
{
    let dx: i64 = a.x as i64 - b.x as i64;
    let dy: i64 = a.y as i64 - b.y as i64;
    let dz: i64 = a.z as i64 - b.z as i64;
    let ax: i64 = if dx < 0 {
        -dx
    } else {
        dx
    };
    let ay: i64 = if dy < 0 {
        -dy
    } else {
        dy
    };
    let az: i64 = if dz < 0 {
        -dz
    } else {
        dz
    };
    ax + ay + az == 1
}

/// Element `k` of a group touches some earlier element of the group.
pub open spec fn reached_from_earlier(g: Seq<Pos3>, k: int) -> bool {
    exists|m: int| 0 <= m < k && adjacent(#[trigger] g[m], g[k])
}

/// Every element of one group reached from its start: each element after
/// the first touches an earlier element of the same group.
pub open spec fn group_connected(g: Seq<Pos3>) -> bool {
    forall|k: int| 1 <= k < g.len() ==> #[trigger] reached_from_earlier(g, k)
}

/// A duplicate-free sequence whose elements all occur in another sequence
/// is no longer than it.
proof fn lemma_unique_subset_len(a: Seq<Pos3>, b: Seq<Pos3>)
    requires
        a.no_duplicates(),
        forall|x: Pos3| a.contains(x) ==> b.contains(x),
    ensures
        a.len() <= b.len(),
{
    broadcast use vstd::seq_lib::seq_to_set_is_finite;
    broadcast use vstd::set::group_set_axioms;

    a.unique_seq_to_set();
    b.lemma_cardinality_of_set();
    assert(a.to_set().subset_of(b.to_set())) by {
        assert forall|x: Pos3| a.to_set().contains(x) implies b.to_set().contains(x) by {
            assert(a.contains(x));
        }
    }
    vstd::set_lib::lemma_len_subset(a.to_set(), b.to_set());
}

/// No position of one group touches a position of another: the groups are
/// maximal, whole veins.
pub open spec fn groups_separated(groups: Seq<Seq<Pos3>>) -> bool {
    forall|gi: int, gj: int, a: int, b: int|
        0 <= gi < groups.len() && 0 <= gj < groups.len() && gi != gj && 0 <= a < groups[gi].len()
            && 0 <= b < groups[gj].len() ==> !adjacent(
            #[trigger] groups[gi][a],
            #[trigger] groups[gj][b],
        )
}

/// Every neighbour, within `ps`, of a position of `flat` is itself in
/// `flat`: the grouped positions are closed under adjacency.
pub open spec fn closed_under_adjacency(flat: Seq<Pos3>, ps: Seq<Pos3>) -> bool {
    forall|x: Pos3, j: int|
        flat.contains(x) && 0 <= j < ps.len() && #[trigger] adjacent(x, ps[j]) ==> flat.contains(
            ps[j],
        )
}

/// An element of one part occurs in the flattening.
proof fn lemma_flatten_alt_contains_part(s: Seq<Seq<Pos3>>, gi: int, a: int)
    requires
        0 <= gi < s.len(),
        0 <= a < s[gi].len(),
    ensures
        s.flatten_alt().contains(s[gi][a]),
    decreases s.len(),
{
    let t = s.drop_last();
    assert(s.flatten_alt() == t.flatten_alt() + s.last());
    if gi == s.len() - 1 {
        assert(s.last().contains(s[gi][a]));
    } else {
        assert(t[gi] == s[gi]);
        lemma_flatten_alt_contains_part(t, gi, a);
    }
    vstd::seq_lib::lemma_seq_concat_contains_all_elements(t.flatten_alt(), s.last(), s[gi][a]);
}

/// Two duplicate-free sequences with the same elements hold the same
/// multiset.
proof fn lemma_unique_same_elements_multiset(a: Seq<Pos3>, b: Seq<Pos3>)
    requires
        a.no_duplicates(),
        b.no_duplicates(),
        forall|x: Pos3| a.contains(x) <==> b.contains(x),
    ensures
        a.to_multiset() == b.to_multiset(),
{
    broadcast use vstd::seq_lib::group_to_multiset_ensures;

    a.lemma_multiset_has_no_duplicates();
    b.lemma_multiset_has_no_duplicates();
    assert forall|x: Pos3| a.to_multiset().count(x) == b.to_multiset().count(x) by {
        if a.contains(x) {
            assert(a.to_multiset().count(x) > 0);
            assert(b.to_multiset().count(x) > 0);
            assert(a.to_multiset().contains(x) && b.to_multiset().contains(x));
        } else {
            assert(a.to_multiset().count(x) == 0);
            assert(b.to_multiset().count(x) == 0);
        }
    }
    assert(a.to_multiset() =~= b.to_multiset());
}

/// Groups connected positions into whole veins: every position lands in
/// exactly one group, within a group every position after the first touches
/// an earlier one, and no position of one group touches a position of
/// another — each group is one maximal connected vein.
pub fn group(positions: &Vec<Pos3>) -> (groups: Vec<Vec<Pos3>>)
    requires
        positions@.no_duplicates(),
    ensures
        forall|gi: int|
            0 <= gi < groups@.len() ==> #[trigger] groups@[gi]@.len() > 0 && group_connected(
                groups@[gi]@,
            ),
        groups@.map_values(|g: Vec<Pos3>| g@).flatten_alt().to_multiset()
            == positions@.to_multiset(),
        groups_separated(groups@.map_values(|g: Vec<Pos3>| g@)),
{
    let n = positions.len();
    let ghost ps = positions@;
    let mut visited: Vec<bool> = Vec::new();
    let mut i: usize = 0;
    while i < n
        invariant
            0 <= i <= n,
            visited@.len() == i,
            forall|j: int| 0 <= j < i ==> !(#[trigger] visited@[j]),
        decreases n - i,
    {
        visited.push(false);
        i = i + 1;
    }
    let mut groups: Vec<Vec<Pos3>> = Vec::new();
    let ghost flat0 = groups@.map_values(|g: Vec<Pos3>| g@).flatten_alt();
    proof {
        assert(flat0 =~= Seq::<Pos3>::empty());
    }
    let mut s: usize = 0;
    while s < n
        invariant
            0 <= s <= n,
            n == ps.len(),
            ps == positions@,
            ps.no_duplicates(),
            visited@.len() == n,
            forall|gi: int|
                0 <= gi < groups@.len() ==> #[trigger] groups@[gi]@.len() > 0 && group_connected(
                    groups@[gi]@,
                ),
            groups_separated(groups@.map_values(|g: Vec<Pos3>| g@)),
            ({
                let flat = groups@.map_values(|g: Vec<Pos3>| g@).flatten_alt();
                &&& flat.no_duplicates()
                &&& closed_under_adjacency(flat, ps)
                &&& forall|j: int|
                    0 <= j < n ==> (visited@[j] <==> flat.contains(#[trigger] ps[j]))
                &&& forall|x: Pos3| flat.contains(x) ==> ps.contains(x)
                &&& forall|j: int| 0 <= j < s ==> #[trigger] visited@[j]
            }),
        decreases n - s,
    {
        if !visited[s] {
            let ghost flat_before = groups@.map_values(|g: Vec<Pos3>| g@).flatten_alt();
            visited[s] = true;
            let mut cur: Vec<Pos3> = Vec::new();
            cur.push(positions[s]);
            let mut qhead: usize = 0;
            while qhead < cur.len()
                invariant
                    0 <= qhead <= cur@.len(),
                    cur@.len() <= n,
                    0 <= s < n,
                    visited@[s as int],
                    forall|j0: int| 0 <= j0 < s ==> #[trigger] visited@[j0],
                    n == ps.len(),
                    ps == positions@,
                    ps.no_duplicates(),
                    visited@.len() == n,
                    cur@.len() >= 1,
                    cur@.no_duplicates(),
                    group_connected(cur@),
                    flat_before == groups@.map_values(|g: Vec<Pos3>| g@).flatten_alt(),
                    flat_before.no_duplicates(),
                    forall|x: Pos3| flat_before.contains(x) ==> ps.contains(x) && !cur@.contains(x),
                    forall|x: Pos3| cur@.contains(x) ==> ps.contains(x),
                    forall|j: int|
                        0 <= j < n ==> (visited@[j] <==> (flat_before.contains(#[trigger] ps[j])
                            || cur@.contains(ps[j]))),
                    forall|gi: int|
                        0 <= gi < groups@.len() ==> #[trigger] groups@[gi]@.len() > 0
                            && group_connected(groups@[gi]@),
                    groups_separated(groups@.map_values(|g: Vec<Pos3>| g@)),
                    closed_under_adjacency(flat_before, ps),
                    forall|k: int, j: int|
                        0 <= k < qhead && 0 <= j < n && #[trigger] adjacent(cur@[k], ps[j])
                            ==> visited@[j],
                decreases n - qhead,
            {
                let cpos = cur[qhead];
                let mut j: usize = 0;
                while j < n
                    invariant
                        0 <= j <= n,
                        0 <= qhead < cur@.len(),
                        n == ps.len(),
                        ps == positions@,
                        ps.no_duplicates(),
                        visited@.len() == n,
                        cpos == cur@[qhead as int],
                        cur@.len() >= 1,
                        cur@.len() <= n,
                        0 <= s < n,
                        visited@[s as int],
                        forall|j0: int| 0 <= j0 < s ==> #[trigger] visited@[j0],
                        cur@.no_duplicates(),
                        group_connected(cur@),
                        flat_before == groups@.map_values(|g: Vec<Pos3>| g@).flatten_alt(),
                        flat_before.no_duplicates(),
                        forall|x: Pos3|
                            flat_before.contains(x) ==> ps.contains(x) && !cur@.contains(x),
                        forall|x: Pos3| cur@.contains(x) ==> ps.contains(x),
                        forall|jj: int|
                            0 <= jj < n ==> (visited@[jj] <==> (flat_before.contains(
                                #[trigger] ps[jj],
                            ) || cur@.contains(ps[jj]))),
                        closed_under_adjacency(flat_before, ps),
                        forall|k: int, jj: int|
                            0 <= k < qhead && 0 <= jj < n && #[trigger] adjacent(cur@[k], ps[jj])
                                ==> visited@[jj],
                        forall|jj: int|
                            0 <= jj < j && #[trigger] adjacent(cpos, ps[jj]) ==> visited@[jj],
                    decreases n - j,
                {
                    if !visited[j] && is_adjacent(cpos, positions[j]) {
                        let ghost cur_before = cur@;
                        visited[j] = true;
                        cur.push(positions[j]);
                        proof {
                            assert(cur@ == cur_before.push(ps[j as int]));
                            assert(!cur_before.contains(ps[j as int]));
                            assert(cur@.len() <= n) by {
                                lemma_unique_subset_len(cur@, ps);
                            }
                            assert(cur@[qhead as int] == cpos);
                            assert forall|k: int| 1 <= k < cur@.len() implies
                                reached_from_earlier(cur@, k) by {
                                if k < cur_before.len() {
                                    assert(reached_from_earlier(cur_before, k));
                                    let m0 = choose|m0: int|
                                        0 <= m0 < k && adjacent(
                                            #[trigger] cur_before[m0],
                                            cur_before[k],
                                        );
                                    assert(cur@[m0] == cur_before[m0] && cur@[k]
                                        == cur_before[k]);
                                    assert(adjacent(cur@[m0], cur@[k]));
                                } else {
                                    assert(adjacent(cur@[qhead as int], cur@[k]));
                                }
                            }
                            assert forall|k: int, jj: int|
                                0 <= k < qhead && 0 <= jj < n && #[trigger] adjacent(
                                    cur@[k],
                                    ps[jj],
                                ) implies visited@[jj] by {
                                assert(cur@[k] == cur_before[k]);
                            }
                        }
                    }
                    j = j + 1;
                }
                proof {
                    assert forall|k: int, jj: int|
                        0 <= k < qhead + 1 && 0 <= jj < n && #[trigger] adjacent(
                            cur@[k],
                            ps[jj],
                        ) implies visited@[jj] by {
                        if k == qhead {
                            assert(cur@[k] == cpos);
                        }
                    }
                }
                qhead = qhead + 1;
            }
            let ghost cur_view = cur@;
            let ghost groups_before = groups@;
            groups.push(cur);
            proof {
                let f = |g: Vec<Pos3>| g@;
                assert(groups@.map_values(f).drop_last() =~= groups_before.map_values(f));
                assert(groups@.map_values(f).last() == cur_view);
                assert(groups@.map_values(f).flatten_alt() == groups_before.map_values(
                    f,
                ).flatten_alt() + cur_view);
                let flat = groups@.map_values(f).flatten_alt();
                assert forall|x: Pos3| flat.contains(x) implies ps.contains(x) by {
                    vstd::seq_lib::lemma_seq_concat_contains_all_elements(
                        flat_before,
                        cur_view,
                        x,
                    );
                }
                assert(flat.no_duplicates()) by {
                    assert forall|a: int, b: int|
                        0 <= a < flat_before.len() && 0 <= b < cur_view.len() implies flat_before[a]
                        != cur_view[b] by {
                        assert(flat_before.contains(flat_before[a]));
                        assert(cur_view.contains(cur_view[b]));
                    }
                    vstd::seq_lib::lemma_no_dup_in_concat(flat_before, cur_view);
                }
                assert forall|jj: int| 0 <= jj < n implies (visited@[jj] <==> flat.contains(
                    #[trigger] ps[jj],
                )) by {
                    vstd::seq_lib::lemma_seq_concat_contains_all_elements(
                        flat_before,
                        cur_view,
                        ps[jj],
                    );
                }
                let gsv = groups@.map_values(f);
                let gsv_old = groups_before.map_values(f);
                assert(gsv.drop_last() =~= gsv_old);
                assert forall|x: Pos3, jj: int|
                    flat.contains(x) && 0 <= jj < n && #[trigger] adjacent(x, ps[jj])
                        implies flat.contains(ps[jj]) by {
                    vstd::seq_lib::lemma_seq_concat_contains_all_elements(
                        flat_before,
                        cur_view,
                        x,
                    );
                    if flat_before.contains(x) {
                        assert(flat_before.contains(ps[jj]));
                    } else {
                        let k = choose|k: int|
                            0 <= k < cur_view.len() && #[trigger] cur_view[k] == x;
                        assert(adjacent(cur_view[k], ps[jj]));
                        assert(visited@[jj]);
                    }
                    vstd::seq_lib::lemma_seq_concat_contains_all_elements(
                        flat_before,
                        cur_view,
                        ps[jj],
                    );
                }
                assert(closed_under_adjacency(flat, ps));
                assert forall|gi: int, gj: int, a: int, b: int|
                    0 <= gi < gsv.len() && 0 <= gj < gsv.len() && gi != gj && 0 <= a
                        < gsv[gi].len() && 0 <= b < gsv[gj].len() implies !adjacent(
                    #[trigger] gsv[gi][a],
                    #[trigger] gsv[gj][b],
                ) by {
                    if gi < gsv.len() - 1 && gj < gsv.len() - 1 {
                        assert(gsv[gi] == gsv_old[gi] && gsv[gj] == gsv_old[gj]);
                    } else {
                        let oi: int = if gj == gsv.len() - 1 { gi } else { gj };
                        let oa: int = if gj == gsv.len() - 1 { a } else { b };
                        let nb: int = if gj == gsv.len() - 1 { b } else { a };
                        let x = gsv[oi][oa];
                        let y = cur_view[nb];
                        assert(gsv[oi] == gsv_old[oi]);
                        lemma_flatten_alt_contains_part(gsv_old, oi, oa);
                        assert(flat_before.contains(x));
                        if adjacent(x, y) || adjacent(y, x) {
                            assert(cur_view.contains(y));
                            assert(ps.contains(y));
                            let jy = choose|jy: int|
                                0 <= jy < ps.len() && #[trigger] ps[jy] == y;
                            assert(adjacent(x, ps[jy]));
                            assert(flat_before.contains(ps[jy]));
                            assert(!cur_view.contains(y));
                        }
                    }
                }
                assert(groups_separated(gsv));
            }
        }
        s = s + 1;
    }
    proof {
        let flat = groups@.map_values(|g: Vec<Pos3>| g@).flatten_alt();
        assert forall|x: Pos3| flat.contains(x) <==> ps.contains(x) by {
            if ps.contains(x) {
                let j = choose|j: int| 0 <= j < ps.len() && #[trigger] ps[j] == x;
                assert(visited@[j]);
            }
        }
        lemma_unique_same_elements_multiset(flat, ps);
    }
    groups
}

} // verus!
