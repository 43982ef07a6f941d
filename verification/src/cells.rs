//! Cell coverage of a tile: choice of the polyfill resolution, and the
//! whole-world coverage used at zoom level zero.

use vstd::prelude::*;

verus! {

/// The descendants of a cell at a resolution, as the cell library hands them
/// out (an invalid cell index or resolution yields none).
pub uninterp spec fn cell_children_of(cell: u64, resolution: u8) -> Seq<u64>;

/// The base cell at position `i` of the cell library's fixed enumeration of
/// the 122 resolution-0 cells.
pub uninterp spec fn base_cell_at(i: int) -> u64;

/// The 122 base cells, in the cell library's enumeration order.
pub open spec fn base_cells_seq() -> Seq<u64> {
    Seq::new(122, |i: int| base_cell_at(i))
}

/// Relies on h3o's `CellIndex::base_cells`: the fixed enumeration of the 122
/// cells of resolution 0.
#[verifier::external_body]
fn base_cells_u64() -> (r: Vec<u64>)
    ensures
        r@.len() == 122,
        forall|i: int| 0 <= i < 122 ==> r@[i] == base_cell_at(i),
{
    h3o::CellIndex::base_cells().map(u64::from).collect()
}

/// Relies on h3o's `CellIndex::children`: the cell's descendants at the
/// given resolution, a function of the cell and the resolution alone; none
/// when the resolution is coarser than the cell's or an argument is invalid.
#[verifier::external_body]
fn cell_children(cell: u64, resolution: u8) -> (r: Vec<u64>)
    ensures
        r@ == cell_children_of(cell, resolution),
{
    let Ok(res) = h3o::Resolution::try_from(resolution) else {
        return Vec::new();
    };
    let Ok(c) = h3o::CellIndex::try_from(cell) else {
        return Vec::new();
    };
    c.children(res).map(u64::from).collect()
}

/// The children of every listed cell, in order, concatenated.
pub open spec fn children_concat(bases: Seq<u64>, resolution: u8) -> Seq<u64>
    decreases bases.len(),
{
    if bases.len() == 0 {
        Seq::empty()
    } else {
        children_concat(bases.drop_last(), resolution) + cell_children_of(
            bases.last(),
            resolution,
        )
    }
}

/// The polyfill working resolution for a zoom level.
///
/// Coarser than the rendered resolution: the tile is polyfilled at this
/// resolution and the result expanded to children, which is much faster, and
/// the buffer absorbs the slight over-coverage.
pub open spec fn spec_polyfill_resolution(zoom: u8) -> u8 {
    if zoom <= 1 {
        0u8
    } else if zoom == 2 {
        1u8
    } else if zoom <= 4 {
        2u8
    } else if zoom == 5 {
        3u8
    } else if zoom <= 7 {
        4u8
    } else if zoom == 8 {
        5u8
    } else if zoom == 9 {
        6u8
    } else if zoom <= 11 {
        7u8
    } else if zoom == 12 {
        8u8
    } else if zoom <= 14 {
        9u8
    } else {
        10u8
    }
}

/// Selects the resolution the tile's bounding box is polyfilled at: the
/// working resolution of the zoom level, capped by the requested resolution.
pub fn polyfill_resolution(zoom: u8, requested: u8) -> (r: u8)
    ensures
        r == if requested <= spec_polyfill_resolution(zoom) {
            requested
        } else {
            spec_polyfill_resolution(zoom)
        },
{
    let table: u8 = if zoom <= 1 {
        0
    } else if zoom == 2 {
        1
    } else if zoom <= 4 {
        2
    } else if zoom == 5 {
        3
    } else if zoom <= 7 {
        4
    } else if zoom == 8 {
        5
    } else if zoom == 9 {
        6
    } else if zoom <= 11 {
        7
    } else if zoom == 12 {
        8
    } else if zoom <= 14 {
        9
    } else {
        10
    };
    if requested <= table {
        requested
    } else {
        table
    }
}

/// The cells covering the zoom-0 tile, which is the whole world: every base
/// cell's children at the requested resolution, in enumeration order.
///
/// A cell may appear once per base cell it descends from; base cells
/// partition the grid, so in practice each appears once.
pub fn cells_zoom_zero(resolution: u8) -> (r: Vec<u64>)
    ensures
        r@ == children_concat(base_cells_seq(), resolution),
{
    let bases = base_cells_u64();
    let mut r: Vec<u64> = Vec::new();
    let mut i: usize = 0;
    proof {
        assert(r@ =~= children_concat(bases@.take(0int), resolution));
    }
    while i < bases.len()
        invariant
            0 <= i <= bases@.len(),
            r@ == children_concat(bases@.take(i as int), resolution),
        decreases bases@.len() - i,
    {
        let mut cs = cell_children(bases[i], resolution);
        let ghost cs_view = cs@;
        let ghost r_before = r@;
        let mut j: usize = 0;
        while j < cs.len()
            invariant
                0 <= j <= cs@.len(),
                cs@ == cs_view,
                r@ == r_before + cs_view.take(j as int),
            decreases cs@.len() - j,
        {
            r.push(cs[j]);
            proof {
                assert(r@ =~= r_before + cs_view.take(j as int + 1));
            }
            j += 1;
        }
        proof {
            let t = bases@.take(i as int + 1);
            assert(t.drop_last() =~= bases@.take(i as int));
            assert(t.last() == bases@[i as int]);
            assert(cs_view.take(cs_view.len() as int) =~= cs_view);
            assert(r@ =~= children_concat(t, resolution));
        }
        i += 1;
    }
    proof {
        assert(bases@.take(bases@.len() as int) =~= bases@);
        assert(bases@ =~= base_cells_seq());
    }
    r
}

} // verus!
