//! Walking a set of tiles up the zoom hierarchy.
//!
//! After the tiles touched by a cell have been collected at the deepest zoom,
//! every zoom level above them is covered by taking parents, deduplicating as
//! they merge, down to the shallow end of the requested range.

use vstd::prelude::*;
use crate::tile::TileID;

verus! {

/// The ancestor of a tile `d` zoom levels up: both coordinates lose their
/// `d` lowest bits.
pub open spec fn ancestor(t: TileID, d: u32) -> TileID {
    TileID::spec_new((t.x >> d) as u32, (t.y >> d) as u32, (t.z - d) as u32)
}

/// The parent one zoom level up.
pub open spec fn parent1(t: TileID) -> TileID {
    ancestor(t, 1)
}

/// A tile is its own ancestor at distance zero.
proof fn lemma_ancestor_zero(t: TileID)
    ensures
        ancestor(t, 0) == t,
{
    let x = t.x;
    let y = t.y;
    assert(x >> 0u32 == x) by (bit_vector);
    assert(y >> 0u32 == y) by (bit_vector);
}

/// The parent of an ancestor is the next ancestor.
proof fn lemma_ancestor_step(t: TileID, d: u32)
    requires
        t.is_valid(),
        d < t.z,
    ensures
        parent1(ancestor(t, d)) == ancestor(t, (d + 1) as u32),
{
    let x = t.x;
    let y = t.y;
    assert(d < 32 ==> ((x >> d) >> 1) == (x >> (d + 1) as u32)) by (bit_vector);
    assert(d < 32 ==> ((y >> d) >> 1) == (y >> (d + 1) as u32)) by (bit_vector);
}

/// Walking to the parent at zoom `z1` and on to zoom `z2` lands on the same
/// tile as walking to zoom `z2` directly: the parent chain of a tile is the
/// chain of its ancestors, one per zoom level.
pub proof fn lemma_parent_chain(t: TileID, z1: u32, z2: u32)
    requires
        t.is_valid(),
        z2 <= z1 <= t.z,
    ensures
        ancestor(ancestor(t, (t.z - z1) as u32), (z1 - z2) as u32) == ancestor(
            t,
            (t.z - z2) as u32,
        ),
{
    let x = t.x;
    let y = t.y;
    let d1: u32 = (t.z - z1) as u32;
    let d2: u32 = (z1 - z2) as u32;
    assert(d1 < 32 && d2 < 32 && d1 + d2 < 32 ==> ((x >> d1) >> d2) == (x >> (d1 + d2) as u32))
        by (bit_vector);
    assert(d1 < 32 && d2 < 32 && d1 + d2 < 32 ==> ((y >> d1) >> d2) == (y >> (d1 + d2) as u32))
        by (bit_vector);
}

/// The tile is an ancestor of one of the input tiles (possibly the tile
/// itself), the distance being told by its zoom.
pub open spec fn from_input(t: TileID, input: Seq<TileID>, zoom: u8) -> bool {
    exists|i: int| 0 <= i < input.len() && t == ancestor(input[i], (zoom as u32 - t.z) as u32)
}

/// Linear membership test.
fn vec_contains_tile(v: &Vec<TileID>, t: &TileID) -> (r: bool)
    ensures
        r == v@.contains(*t),
{
    let mut i: usize = 0;
    while i < v.len()
        invariant
            0 <= i <= v@.len(),
            forall|k: int| 0 <= k < i ==> v@[k] != *t,
        decreases v@.len() - i,
    {
        if v[i] == *t {
            return true;
        }
        i += 1;
    }
    false
}

/// Appends the parent of every tile of the layer `[prev_start, prev_end)`,
/// one zoom level up, skipping parents already present.
#[verifier::rlimit(100)]
fn bubble_layer(
    result: &mut Vec<TileID>,
    prev_start: usize,
    prev_end: usize,
    target: u8,
    zoom: u8,
    Ghost(input): Ghost<Seq<TileID>>,
)
    requires
        zoom <= 31,
        target < zoom,
        prev_start <= prev_end,
        prev_end == old(result)@.len(),
        forall|i: int|
            0 <= i < input.len() ==> (#[trigger] input[i]).is_valid() && input[i].z == zoom as u32,
        forall|k: int|
            0 <= k < old(result)@.len() ==> (#[trigger] old(result)@[k]).is_valid() && target + 1
                <= old(result)@[k].z <= zoom as u32,
        forall|k: int|
            prev_start <= k < prev_end ==> (#[trigger] old(result)@[k]).z == target as u32 + 1,
        forall|i: int, j: int|
            0 <= i < j < old(result)@.len() ==> old(result)@[i] != old(result)@[j],
        forall|k: int|
            0 <= k < old(result)@.len() ==> from_input(#[trigger] old(result)@[k], input, zoom),
    ensures
        final(result)@.len() >= prev_end,
        final(result)@.take(prev_end as int) == old(result)@,
        forall|k: int|
            0 <= k < final(result)@.len() ==> (#[trigger] final(result)@[k]).is_valid() && target
                as u32 <= final(result)@[k].z <= zoom as u32,
        forall|k: int|
            prev_end <= k < final(result)@.len() ==> (#[trigger] final(result)@[k]).z
                == target as u32,
        forall|i: int, j: int|
            0 <= i < j < final(result)@.len() ==> final(result)@[i] != final(result)@[j],
        forall|k: int|
            0 <= k < final(result)@.len() ==> from_input(#[trigger] final(result)@[k], input, zoom),
        forall|k: int|
            prev_start <= k < prev_end ==> final(result)@.contains(
                #[trigger] parent1(final(result)@[k]),
            ),
{
    let ghost res0 = old(result)@;
    proof {
        assert(result@.take(prev_end as int) =~= res0);
        assert forall|k: int| 0 <= k < result@.len() implies from_input(
            #[trigger] result@[k],
            input,
            zoom,
        ) by {
            assert(result@[k] == old(result)@[k]);
            assert(from_input(old(result)@[k], input, zoom));
        }
    }
    let mut i: usize = prev_start;
    while i < prev_end
        invariant
            prev_start <= i <= prev_end,
            prev_end <= result@.len(),
            zoom <= 31,
            target < zoom,
            result@.take(prev_end as int) == res0,
            res0.len() == prev_end,
            forall|i2: int|
                0 <= i2 < input.len() ==> (#[trigger] input[i2]).is_valid() && input[i2].z
                    == zoom as u32,
            forall|k: int|
                0 <= k < result@.len() ==> (#[trigger] result@[k]).is_valid() && target as u32
                    <= result@[k].z <= zoom as u32,
            forall|k: int|
                prev_start <= k < prev_end ==> (#[trigger] result@[k]).z == target as u32 + 1,
            forall|k: int|
                prev_end <= k < result@.len() ==> (#[trigger] result@[k]).z == target as u32,
            forall|i2: int, j: int| 0 <= i2 < j < result@.len() ==> result@[i2] != result@[j],
            forall|k: int|
                0 <= k < result@.len() ==> from_input(#[trigger] result@[k], input, zoom),
            forall|k: int|
                prev_start <= k < i ==> result@.contains(#[trigger] parent1(result@[k])),
        decreases prev_end - i,
    {
        let t = result[i];
        proof {
            assert(result@[i as int] == res0[i as int]);
        }
        let p_opt = t.parent(target);
        let p = p_opt.unwrap();
        proof {
            assert(t.z == target as u32 + 1);
            assert(p == parent1(t));
        }
        let present = vec_contains_tile(&*result, &p);
        let ghost res_before = result@;
        if !present {
            result.push(p);
            proof {
                assert(result@.take(prev_end as int) =~= res_before.take(prev_end as int));
                assert(from_input(t, input, zoom));
                let idx = choose|i2: int|
                    0 <= i2 < input.len() && t == ancestor(input[i2], (zoom as u32 - t.z) as u32);
                lemma_ancestor_step(input[idx], (zoom as u32 - t.z) as u32);
                assert(p == ancestor(input[idx], (zoom as u32 - p.z) as u32));
                assert(from_input(p, input, zoom));
                assert forall|k: int| 0 <= k < result@.len() implies from_input(
                    #[trigger] result@[k],
                    input,
                    zoom,
                ) by {
                    if k < res_before.len() {
                        assert(result@[k] == res_before[k]);
                        assert(from_input(res_before[k], input, zoom));
                    } else {
                        assert(result@[k] == p);
                    }
                }
            }
        }
        proof {
            assert(result@.contains(parent1(t))) by {
                if present {
                    let w = choose|w: int| 0 <= w < res_before.len() && res_before[w] == p;
                    assert(result@[w] == p);
                } else {
                    assert(result@[result@.len() - 1] == p);
                }
            }
            assert forall|k: int| prev_start <= k < i + 1 implies result@.contains(
                #[trigger] parent1(result@[k]),
            ) by {
                if k < i {
                    assert(res_before.contains(parent1(res_before[k])));
                    let w = choose|w: int|
                        0 <= w < res_before.len() && res_before[w] == parent1(res_before[k]);
                    assert(result@[w] == parent1(result@[k]));
                } else {
                    assert(result@[k] == t);
                }
            }
        }
        i += 1;
    }
}

/// Distinct valid tiles of one zoom level are no more numerous than the
/// grid's cells.
proof fn lemma_distinct_tiles_bound(s: Seq<TileID>, z: u32)
    requires
        z <= 31,
        forall|k: int| 0 <= k < s.len() ==> (#[trigger] s[k]).is_valid() && s[k].z == z,
        forall|i: int, j: int| 0 <= i < j < s.len() ==> s[i] != s[j],
    ensures
        s.len() <= (1u64 << z) * (1u64 << z),
{
    let side = (1u32 << z) as int;
    let f = |t: TileID| (t.x as int) * ((1u32 << t.z) as int) + (t.y as int);
    let m = s.map_values(f);
    assert forall|i: int, j: int| 0 <= i < j < m.len() implies m[i] != m[j] by {
        let a = s[i];
        let b = s[j];
        assert(m[i] == f(a) && m[j] == f(b));
        assert((a.x as int) * side + (a.y as int) != (b.x as int) * side + (b.y as int)) by (
        nonlinear_arith)
            requires
                0 <= a.x < side,
                0 <= a.y < side,
                0 <= b.x < side,
                0 <= b.y < side,
                a.x != b.x || a.y != b.y,
        ;
    }
    assert(m.no_duplicates());
    m.unique_seq_to_set();
    assert forall|v: int| m.to_set().contains(v) implies 0 <= v < side * side by {
        let w = choose|w: int| 0 <= w < m.len() && m[w] == v;
        let a = s[w];
        assert(0 <= (a.x as int) * side + (a.y as int) < side * side) by (nonlinear_arith)
            requires
                0 <= a.x < side,
                0 <= a.y < side,
                side >= 1,
        ;
    }
    assert(m.to_set().subset_of(vstd::set_lib::set_int_range(0, side * side)));
    vstd::set_lib::lemma_int_range(0, side * side);
    vstd::set_lib::lemma_len_subset(m.to_set(), vstd::set_lib::set_int_range(0, side * side));
    assert(z <= 31 ==> (1u64 << z) == (1u32 << z) as u64) by (bit_vector);
    assert((1u64 << z) * (1u64 << z) == side * side);
}

/// Flood-fills, from a seed tile, the tiles of the same zoom level whose
/// contents the given test accepts: every neighbor of an accepted tile
/// becomes a candidate, and a candidate is kept when the test accepts it.
///
/// The test is the caller's — for the renderer it asks whether a cell's
/// boundary, a floating-point shape the core cannot hold, touches the tile —
/// and the search is correct for every answer the test may give: the result
/// starts with the seed, stays at its zoom level, holds no duplicates, and
/// every other tile of it was accepted by the test.  The search is also
/// exhaustive: every neighbor of every included tile is either included
/// itself or was tested and refused, so nothing the test accepts on the
/// frontier is left out.
#[verifier::rlimit(100)]
pub fn flood_fill<F: Fn(TileID) -> bool>(seed: TileID, intersects: F) -> (r: Vec<TileID>)
    requires
        seed.is_valid(),
        forall|t: TileID| #[trigger] call_requires(intersects, (t,)),
    ensures
        r@.len() >= 1,
        r@[0] == seed,
        forall|k: int|
            0 <= k < r@.len() ==> (#[trigger] r@[k]).is_valid() && r@[k].z == seed.z,
        forall|i: int, j: int| 0 <= i < j < r@.len() ==> r@[i] != r@[j],
        forall|k: int| 1 <= k < r@.len() ==> call_ensures(intersects, (#[trigger] r@[k],), true),
        forall|k: int, j: int|
            0 <= k < r@.len() && 0 <= j < 8 ==> r@.contains(
                #[trigger] r@[k].spec_neighbors()[j],
            ) || call_ensures(intersects, (r@[k].spec_neighbors()[j],), false),
{
    let ghost side2 = ((1u64 << seed.z) * (1u64 << seed.z)) as int;
    let mut tiles: Vec<TileID> = Vec::new();
    tiles.push(seed);
    let mut candidates: Vec<TileID> = seed.neighbors();
    let mut qi: usize = 0;
    proof {
        lemma_distinct_tiles_bound(tiles@, seed.z);
        assert forall|k: int, j: int|
            0 <= k < tiles@.len() && 0 <= j < 8 implies tiles@.contains(
            #[trigger] tiles@[k].spec_neighbors()[j],
        ) || candidates@.contains(tiles@[k].spec_neighbors()[j]) by {
            assert(candidates@[j] == seed.spec_neighbors()[j]);
        }
    }
    while qi < candidates.len()
        invariant
            seed.is_valid(),
            side2 == ((1u64 << seed.z) * (1u64 << seed.z)) as int,
            forall|t: TileID| #[trigger] call_requires(intersects, (t,)),
            tiles@.len() >= 1,
            tiles@[0] == seed,
            forall|k: int|
                0 <= k < tiles@.len() ==> (#[trigger] tiles@[k]).is_valid() && tiles@[k].z
                    == seed.z,
            forall|i: int, j: int| 0 <= i < j < tiles@.len() ==> tiles@[i] != tiles@[j],
            forall|k: int|
                1 <= k < tiles@.len() ==> call_ensures(intersects, (#[trigger] tiles@[k],), true),
            forall|k: int|
                0 <= k < candidates@.len() ==> (#[trigger] candidates@[k]).is_valid()
                    && candidates@[k].z == seed.z,
            qi <= candidates@.len(),
            tiles@.len() <= side2,
            forall|c: int|
                0 <= c < qi ==> tiles@.contains(#[trigger] candidates@[c]) || call_ensures(
                    intersects,
                    (candidates@[c],),
                    false,
                ),
            forall|k: int, j: int|
                0 <= k < tiles@.len() && 0 <= j < 8 ==> tiles@.contains(
                    #[trigger] tiles@[k].spec_neighbors()[j],
                ) || candidates@.contains(tiles@[k].spec_neighbors()[j]),
        decreases side2 - tiles@.len(), candidates@.len() - qi,
    {
        let t = candidates[qi];
        qi += 1;
        let present = vec_contains_tile(&tiles, &t);
        if !present {
            let hit = intersects(t);
            if hit {
                let ghost tiles_before = tiles@;
                let ghost cands_before = candidates@;
                tiles.push(t);
                proof {
                    lemma_distinct_tiles_bound(tiles@, seed.z);
                    assert forall|c: int|
                        0 <= c < qi implies tiles@.contains(#[trigger] candidates@[c])
                        || call_ensures(intersects, (candidates@[c],), false) by {
                        if c < qi - 1 {
                            if tiles_before.contains(candidates@[c]) {
                                let w = choose|w: int|
                                    0 <= w < tiles_before.len() && tiles_before[w]
                                        == candidates@[c];
                                assert(tiles@[w] == candidates@[c]);
                            }
                        } else {
                            assert(candidates@[c] == t);
                            assert(tiles@[tiles@.len() - 1] == t);
                        }
                    }
                }
                let more = t.neighbors();
                let mut ni: usize = 0;
                proof {
                    assert forall|k: int, j: int|
                        0 <= k < tiles@.len() - 1 && 0 <= j < 8 implies tiles@.contains(
                        #[trigger] tiles@[k].spec_neighbors()[j],
                    ) || candidates@.contains(tiles@[k].spec_neighbors()[j]) by {
                        assert(tiles@[k] == tiles_before[k]);
                        let n = tiles_before[k].spec_neighbors()[j];
                        if tiles_before.contains(n) {
                            let w = choose|w: int|
                                0 <= w < tiles_before.len() && tiles_before[w] == n;
                            assert(tiles@[w] == n);
                        }
                    }
                }
                while ni < more.len()
                    invariant
                        seed.is_valid(),
                        forall|t2: TileID| #[trigger] call_requires(intersects, (t2,)),
                        tiles@.len() >= 1,
                        t == tiles@[tiles@.len() - 1],
                        more@ == t.spec_neighbors(),
                        more@.len() == 8,
                        forall|k: int|
                            0 <= k < more@.len() ==> (#[trigger] more@[k]).is_valid()
                                && more@[k].z == seed.z,
                        forall|k: int|
                            0 <= k < candidates@.len() ==> (#[trigger] candidates@[k]).is_valid()
                                && candidates@[k].z == seed.z,
                        ni <= more@.len(),
                        qi <= candidates@.len(),
                        forall|c: int|
                            0 <= c < qi ==> tiles@.contains(#[trigger] candidates@[c])
                                || call_ensures(intersects, (candidates@[c],), false),
                        forall|k: int, j: int|
                            0 <= k < tiles@.len() - 1 && 0 <= j < 8 ==> tiles@.contains(
                                #[trigger] tiles@[k].spec_neighbors()[j],
                            ) || candidates@.contains(tiles@[k].spec_neighbors()[j]),
                        forall|j: int|
                            0 <= j < ni ==> tiles@.contains(#[trigger] more@[j])
                                || candidates@.contains(more@[j]),
                    decreases more@.len() - ni,
                {
                    let n = more[ni];
                    let ghost cands_pre = candidates@;
                    let n_present = vec_contains_tile(&tiles, &n);
                    if !n_present {
                        candidates.push(n);
                        proof {
                            assert forall|c: int|
                                0 <= c < qi implies tiles@.contains(#[trigger] candidates@[c])
                                || call_ensures(intersects, (candidates@[c],), false) by {
                                assert(candidates@[c] == cands_pre[c]);
                            }
                            assert forall|k: int, j: int|
                                0 <= k < tiles@.len() - 1 && 0 <= j < 8 implies tiles@.contains(
                                #[trigger] tiles@[k].spec_neighbors()[j],
                            ) || candidates@.contains(tiles@[k].spec_neighbors()[j]) by {
                                let n2 = tiles@[k].spec_neighbors()[j];
                                if cands_pre.contains(n2) {
                                    let w = choose|w: int|
                                        0 <= w < cands_pre.len() && cands_pre[w] == n2;
                                    assert(candidates@[w] == n2);
                                }
                            }
                            assert forall|j: int|
                                0 <= j < ni + 1 implies tiles@.contains(#[trigger] more@[j])
                                || candidates@.contains(more@[j]) by {
                                if j < ni {
                                    let n2 = more@[j];
                                    if cands_pre.contains(n2) {
                                        let w = choose|w: int|
                                            0 <= w < cands_pre.len() && cands_pre[w] == n2;
                                        assert(candidates@[w] == n2);
                                    }
                                } else {
                                    assert(candidates@[candidates@.len() - 1] == n);
                                }
                            }
                        }
                    }
                    ni += 1;
                }
                proof {
                    assert forall|k: int, j: int|
                        0 <= k < tiles@.len() && 0 <= j < 8 implies tiles@.contains(
                        #[trigger] tiles@[k].spec_neighbors()[j],
                    ) || candidates@.contains(tiles@[k].spec_neighbors()[j]) by {
                        if k == tiles@.len() - 1 {
                            assert(tiles@[k] == t);
                            assert(more@[j] == t.spec_neighbors()[j]);
                        }
                    }
                }
            }
        }
    }
    proof {
        assert forall|k: int, j: int|
            0 <= k < tiles@.len() && 0 <= j < 8 implies tiles@.contains(
            #[trigger] tiles@[k].spec_neighbors()[j],
        ) || call_ensures(intersects, (tiles@[k].spec_neighbors()[j],), false) by {
            let n = tiles@[k].spec_neighbors()[j];
            if !tiles@.contains(n) {
                assert(candidates@.contains(n));
                let c = choose|c: int| 0 <= c < candidates@.len() && candidates@[c] == n;
                assert(c < qi);
                assert(tiles@.contains(candidates@[c]) || call_ensures(
                    intersects,
                    (candidates@[c],),
                    false,
                ));
            }
        }
    }
    tiles
}

/// Extends a set of tiles, all at zoom `zoom`, with every ancestor down to
/// zoom `min_zoom`, without duplicates.
///
/// The input tiles stay at the front, in their order; ancestors follow, one
/// zoom layer after another.  When `min_zoom > zoom` there is nothing to add.
#[verifier::rlimit(100)]
pub fn bubble_up(tiles: Vec<TileID>, zoom: u8, min_zoom: u8) -> (r: Vec<TileID>)
    requires
        zoom <= 31,
        forall|i: int|
            0 <= i < tiles@.len() ==> (#[trigger] tiles@[i]).is_valid() && tiles@[i].z
                == zoom as u32,
        forall|i: int, j: int| 0 <= i < j < tiles@.len() ==> tiles@[i] != tiles@[j],
    ensures
        tiles@.len() <= r@.len(),
        r@.take(tiles@.len() as int) == tiles@,
        forall|i: int, j: int| 0 <= i < j < r@.len() ==> r@[i] != r@[j],
        forall|k: int|
            0 <= k < r@.len() ==> (#[trigger] r@[k]).is_valid() && r@[k].z <= zoom as u32,
        min_zoom <= zoom ==> forall|i: int, d: u32|
            0 <= i < tiles@.len() && 0 <= d <= zoom - min_zoom ==> r@.contains(
                #[trigger] ancestor(tiles@[i], d),
            ),
        forall|k: int|
            0 <= k < r@.len() ==> from_input(#[trigger] r@[k], tiles@, zoom),
        min_zoom <= zoom ==> forall|k: int|
            0 <= k < r@.len() ==> min_zoom as u32 <= (#[trigger] r@[k]).z,
        min_zoom > zoom ==> r@ == tiles@,
{
    let ghost input = tiles@;
    let mut result = tiles;
    let mut cur_z: u8 = zoom;
    let mut prev_start: usize = 0;
    let mut prev_end: usize = result.len();
    proof {
        assert(result@.take(input.len() as int) =~= input);
        assert forall|k: int| 0 <= k < result@.len() implies from_input(
            #[trigger] result@[k],
            input,
            zoom,
        ) by {
            assert(result@[k] == tiles@[k]);
            lemma_ancestor_zero(result@[k]);
            assert(result@[k] == ancestor(input[k], 0u32));
        }
        assert forall|i: int, d: u32|
            0 <= i < input.len() && 0 <= d <= zoom - cur_z implies result@.contains(
            #[trigger] ancestor(input[i], d),
        ) by {
            assert(input[i] == tiles@[i]);
            lemma_ancestor_zero(input[i]);
            assert(result@[i] == ancestor(input[i], d));
        }
    }
    while cur_z > min_zoom
        invariant
            zoom <= 31,
            cur_z <= zoom,
            min_zoom <= cur_z || cur_z == zoom,
            min_zoom > zoom ==> result@ == input,
            input.len() <= result@.len(),
            prev_start <= prev_end,
            prev_end == result@.len(),
            result@.take(input.len() as int) == input,
            forall|i: int|
                0 <= i < input.len() ==> (#[trigger] input[i]).is_valid() && input[i].z
                    == zoom as u32,
            forall|k: int|
                0 <= k < result@.len() ==> (#[trigger] result@[k]).is_valid() && cur_z as u32
                    <= result@[k].z <= zoom as u32,
            forall|k: int| prev_start <= k < prev_end ==> (#[trigger] result@[k]).z == cur_z as u32,
            forall|k: int| 0 <= k < prev_start ==> (#[trigger] result@[k]).z > cur_z as u32,
            forall|i: int, j: int| 0 <= i < j < result@.len() ==> result@[i] != result@[j],
            forall|k: int|
                0 <= k < result@.len() ==> from_input(#[trigger] result@[k], input, zoom),
            forall|i: int, d: u32|
                0 <= i < input.len() && 0 <= d <= zoom - cur_z ==> result@.contains(
                    #[trigger] ancestor(input[i], d),
                ),
        decreases cur_z,
    {
        let target: u8 = cur_z - 1;
        let ghost res_at_entry = result@;
        proof {
            assert(input.len() <= prev_end);
        }
        bubble_layer(&mut result, prev_start, prev_end, target, zoom, Ghost(input));
        proof {
            assert forall|k: int| 0 <= k < input.len() implies result@[k] == input[k] by {
                assert(result@.take(prev_end as int)[k] == res_at_entry[k]);
                assert(res_at_entry.take(input.len() as int)[k] == input[k]);
            }
            assert(result@.take(input.len() as int) =~= input);
            assert forall|i2: int, d: u32|
                0 <= i2 < input.len() && 0 <= d <= zoom - target implies result@.contains(
                #[trigger] ancestor(input[i2], d),
            ) by {
                if d <= zoom - cur_z {
                    assert(res_at_entry.contains(ancestor(input[i2], d)));
                    let w = choose|w: int|
                        0 <= w < res_at_entry.len() && res_at_entry[w] == ancestor(input[i2], d);
                    assert(result@.take(prev_end as int)[w] == res_at_entry[w]);
                    assert(result@[w] == ancestor(input[i2], d));
                } else {
                    let dprev: u32 = (d - 1) as u32;
                    assert(res_at_entry.contains(ancestor(input[i2], dprev)));
                    let w = choose|w: int|
                        0 <= w < res_at_entry.len() && res_at_entry[w] == ancestor(input[i2], dprev);
                    assert(result@.take(prev_end as int)[w] == res_at_entry[w]);
                    assert(result@[w] == ancestor(input[i2], dprev));
                    assert(result@[w].z == cur_z as u32);
                    assert(prev_start <= w < prev_end);
                    assert(result@.contains(parent1(result@[w])));
                    lemma_ancestor_step(input[i2], dprev);
                }
            }
        }
        proof {
            assert forall|k: int| 0 <= k < prev_end implies (#[trigger] result@[k]).z
                > target as u32 by {
                assert(result@.take(prev_end as int)[k] == res_at_entry[k]);
            }
        }
        prev_start = prev_end;
        prev_end = result.len();
        cur_z = target;
    }
    result
}

} // verus!
