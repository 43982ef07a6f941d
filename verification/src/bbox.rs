//! Padded tile bounding boxes, in exact fixed-point grid units.
//!
//! The padded bounding box of a tile is an axis-aligned rectangle in the tile
//! grid, possibly split and wrapped around the antimeridian.  Along the `x`
//! axis the conversion between grid units and longitude is linear, so every
//! decision the original geometry takes on longitudes (clamping to the world,
//! splitting boxes wider than a hemisphere, re-projecting overflow) is made
//! here exactly, on integers: a grid unit is `SCALE` ticks and the padding of
//! `80 / 4096` of a tile is exactly `PAD` ticks.
//!
//! Latitude needs no such treatment: the inverse mercator formula keeps every
//! finite grid ordinate strictly between the poles, so the world never
//! overflows along `y` and the `y` ticks are carried through unchanged.

use vstd::prelude::*;
use crate::tile::TileID;

verus! {

/// Fixed-point ticks per tile-grid unit.
pub const SCALE: i64 = 512;

/// The tile padding (80 pixels of a 4096-pixel tile), in ticks.
pub const PAD: i64 = 10;

/// An axis-aligned rectangle in scaled tile-grid coordinates.
///
/// `min_x`, `max_x` grow eastward; `min_y`, `max_y` grow southward (the grid
/// `y` axis points down).  A whole world is `SCALE * 2^z` ticks wide.
#[derive(Debug, Clone, Copy, PartialEq, Eq, Structural)]
pub struct GridRect {
    pub min_x: i64,
    pub min_y: i64,
    pub max_x: i64,
    pub max_y: i64,
}

/// Builds a grid rectangle from mathematical coordinates.
pub open spec fn mk_rect(min_x: int, min_y: int, max_x: int, max_y: int) -> GridRect {
    GridRect {
        min_x: min_x as i64,
        min_y: min_y as i64,
        max_x: max_x as i64,
        max_y: max_y as i64,
    }
}

/// The width of the world at zoom `z`, in ticks.
pub open spec fn world_width(z: u32) -> int {
    512 * (1u64 << z)
}

/// The padded bounding box is trivial when it lies within the world and
/// spans at most half of it (a wider box would trip the transmeridian
/// heuristic of the polyfill library).
pub open spec fn spec_bbox_is_trivial(t: TileID) -> bool {
    let w = world_width(t.z);
    let a = 512 * t.x - 10;
    let b = 512 * (t.x + 1) + 10;
    a >= 0 && b <= w && b - a <= w / 2
}

/// The padded bounding box of a tile, as one or more grid rectangles.
///
/// The trivial case is a single rectangle.  Otherwise the rectangle is
/// clamped to the world, split down its middle when it spans more than half
/// the world, and each part clamped away re-enters from the opposite edge.
pub open spec fn spec_compute_bbox(t: TileID) -> Seq<GridRect> {
    let w = world_width(t.z);
    let a = 512 * t.x - 10;
    let b = 512 * (t.x + 1) + 10;
    let c = 512 * t.y - 10;
    let d = 512 * (t.y + 1) + 10;
    if spec_bbox_is_trivial(t) {
        seq![mk_rect(a, c, b, d)]
    } else {
        let ap: int = if a >= 0 { a } else { 0 };
        let bp: int = if b <= w { b } else { w };
        let main: Seq<GridRect> = if bp - ap > w / 2 {
            seq![mk_rect(ap, c, (ap + bp) / 2, d), mk_rect((ap + bp) / 2, c, bp, d)]
        } else {
            seq![mk_rect(ap, c, bp, d)]
        };
        let with_west: Seq<GridRect> = if a < 0 {
            main.push(mk_rect(a + w, c, w, d))
        } else {
            main
        };
        if b > w {
            with_west.push(mk_rect(0, c, b - w, d))
        } else {
            with_west
        }
    }
}

impl TileID {
    /// Computes the shape of the padded bounding box of this tile, in scaled
    /// grid coordinates.
    ///
    /// In most cases it is just one rectangle; near the edges of the world it
    /// is split into up to four parts that can be polyfilled independently.
    pub fn compute_bbox(self) -> (r: Vec<GridRect>)
        requires
            self.is_valid(),
        ensures
            r@ == spec_compute_bbox(self),
            1 <= r@.len() <= 4,
    {
        let z = self.z;
        proof {
            assert(z <= 31 ==> 1u64 << z >= 1 && 1u64 << z <= 0x8000_0000u64) by (bit_vector);
        }
        let side: u64 = 1u64 << z;
        let w: i64 = SCALE * (side as i64);
        let a: i64 = SCALE * (self.x as i64) - PAD;
        let b: i64 = SCALE * (self.x as i64 + 1) + PAD;
        let c: i64 = SCALE * (self.y as i64) - PAD;
        let d: i64 = SCALE * (self.y as i64 + 1) + PAD;
        let mut parts: Vec<GridRect> = Vec::new();
        if a >= 0 && b <= w && b - a <= w / 2 {
            parts.push(GridRect { min_x: a, min_y: c, max_x: b, max_y: d });
            proof {
                assert(parts@ =~= spec_compute_bbox(self));
            }
            return parts;
        }
        let ap: i64 = if a >= 0 { a } else { 0 };
        let bp: i64 = if b <= w { b } else { w };
        if bp - ap > w / 2 {
            let m: i64 = (ap + bp) / 2;
            parts.push(GridRect { min_x: ap, min_y: c, max_x: m, max_y: d });
            parts.push(GridRect { min_x: m, min_y: c, max_x: bp, max_y: d });
        } else {
            parts.push(GridRect { min_x: ap, min_y: c, max_x: bp, max_y: d });
        }
        if a < 0 {
            parts.push(GridRect { min_x: a + w, min_y: c, max_x: w, max_y: d });
        }
        if b > w {
            parts.push(GridRect { min_x: 0, min_y: c, max_x: b - w, max_y: d });
        }
        proof {
            assert(parts@ =~= spec_compute_bbox(self));
        }
        parts
    }
}

} // verus!
