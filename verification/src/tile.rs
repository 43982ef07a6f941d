//! Tile identifiers in the XYZ web-mercator grid.

use vstd::prelude::*;
use crate::error::InvalidTileID;

verus! {

/// Maximum zoom level.
pub const MAX_ZOOM: u8 = 31;

/// Tile extent, in pixels (from the MVT specification).
pub const TILE_SIZE: u32 = 4096;

/// Buffer around a tile, in pixels.
///
/// Used to render shapes that overlap multiple adjacent tiles.
pub const BUFFER: u32 = 80;

/// A tile identifier in a `xy` grid at zoom level `z`.
#[derive(Debug, Clone, Copy, PartialEq, Eq, Hash, Ord, PartialOrd, Structural)]
pub struct TileID {
    pub x: u32,
    pub y: u32,
    pub z: u32,
}

impl TileID {
    /// Number of tiles along one axis at this tile's zoom level.
    pub open spec fn side(self) -> u32 {
        1u32 << self.z
    }

    /// The invariant of a tile identifier: the zoom is at most `MAX_ZOOM`
    /// and both coordinates lie within the grid.
    pub open spec fn is_valid(self) -> bool {
        &&& self.z <= 31
        &&& self.x < self.side()
        &&& self.y < self.side()
    }

    pub open spec fn spec_x(self) -> u32 {
        self.x
    }

    pub open spec fn spec_y(self) -> u32 {
        self.y
    }

    pub open spec fn spec_z(self) -> u32 {
        self.z
    }

    /// The tile with the given coordinates, as a spec-level value.
    pub open spec fn spec_new(x: u32, y: u32, z: u32) -> TileID {
        TileID { x, y, z }
    }

    /// Initialize a new tile identifier.
    ///
    /// Succeeds exactly when `z <= 31`, `x < 2^z` and `y < 2^z`; each error
    /// carries the offending coordinate.
    pub fn new(x: u32, y: u32, z: u8) -> (r: Result<TileID, InvalidTileID>)
        ensures
            z > 31 ==> r == Err::<TileID, InvalidTileID>(InvalidTileID::InvalidZ(z as u32)),
            z <= 31 && x >= (1u32 << z as u32) ==> r == Err::<TileID, InvalidTileID>(
                InvalidTileID::InvalidX(x),
            ),
            z <= 31 && x < (1u32 << z as u32) && y >= (1u32 << z as u32) ==> r == Err::<
                TileID,
                InvalidTileID,
            >(InvalidTileID::InvalidY(y)),
            z <= 31 && x < (1u32 << z as u32) && y < (1u32 << z as u32) ==> r == Ok::<
                TileID,
                InvalidTileID,
            >(TileID::spec_new(x, y, z as u32)),
            r is Ok ==> r->Ok_0.is_valid(),
    {
        if z > MAX_ZOOM {
            return Err(InvalidTileID::InvalidZ(z as u32));
        }
        let zz: u32 = z as u32;
        proof {
            assert(zz <= 31 ==> 1u32 << zz >= 1) by (bit_vector);
        }
        let bound: u32 = (1u32 << zz) - 1;
        if x > bound {
            return Err(InvalidTileID::InvalidX(x));
        }
        if y > bound {
            return Err(InvalidTileID::InvalidY(y));
        }
        Ok(TileID { x, y, z: zz })
    }

    /// Returns the XY coordinate of the tile.
    pub fn xy(self) -> (r: (u32, u32))
        ensures
            r == (self.spec_x(), self.spec_y()),
    {
        (self.x, self.y)
    }

    /// Returns the zoom level of the tile.
    pub fn zoom(&self) -> (r: u8)
        requires
            self.is_valid(),
        ensures
            r == self.spec_z(),
    {
        self.z as u8
    }

    /// Initialize a new tile identifier from coordinates known to be in range.
    pub fn new_unchecked(x: u32, y: u32, z: u8) -> (r: TileID)
        requires
            z <= 31,
            x < (1u32 << z as u32),
            y < (1u32 << z as u32),
        ensures
            r == TileID::spec_new(x, y, z as u32),
            r.is_valid(),
    {
        TileID { x, y, z: z as u32 }
    }

    /// Returns the parent, at the specified zoom, of the tile.
    ///
    /// The parent of `(x, y, z)` at zoom `z' <= z` is `(x >> (z - z'), y >> (z - z'), z')`.
    pub fn parent(self, zoom: u8) -> (r: Option<TileID>)
        requires
            self.is_valid(),
        ensures
            zoom as u32 > self.z ==> r is None,
            zoom as u32 <= self.z ==> r == Some(
                TileID::spec_new(
                    self.x >> (self.z - zoom) as u32,
                    self.y >> (self.z - zoom) as u32,
                    zoom as u32,
                ),
            ),
            r is Some ==> r->0.is_valid() && r->0.z == zoom as u32,
    {
        let zoom32: u32 = zoom as u32;
        if zoom32 <= self.z {
            let delta: u32 = self.z - zoom32;
            proof {
                let x = self.x;
                let y = self.y;
                let z = self.z;
                assert(zoom32 <= z && z <= 31 && x < (1u32 << z) && delta == (z - zoom32)
                    ==> (x >> delta) < (1u32 << zoom32)) by (bit_vector);
                assert(zoom32 <= z && z <= 31 && y < (1u32 << z) && delta == (z - zoom32)
                    ==> (y >> delta) < (1u32 << zoom32)) by (bit_vector);
            }
            Some(TileID { x: self.x >> delta, y: self.y >> delta, z: zoom32 })
        } else {
            None
        }
    }

    /// The coordinate just before `v`, wrapping around the grid.
    pub open spec fn dec_wrap(v: u32, side: u32) -> u32 {
        if v == 0 {
            (side - 1) as u32
        } else {
            (v - 1) as u32
        }
    }

    /// The coordinate just after `v`, wrapping around the grid.
    pub open spec fn inc_wrap(v: u32, side: u32) -> u32 {
        if v + 1 == side {
            0u32
        } else {
            (v + 1) as u32
        }
    }

    /// The 8 neighbors of the tile, in the fixed order
    /// NW, N, NE, W, E, SW, S, SE, wrapping around the grid on both axes.
    pub open spec fn spec_neighbors(self) -> Seq<TileID> {
        let s = self.side();
        let px = TileID::dec_wrap(self.x, s);
        let nx = TileID::inc_wrap(self.x, s);
        let py = TileID::dec_wrap(self.y, s);
        let ny = TileID::inc_wrap(self.y, s);
        seq![
            TileID::spec_new(px, py, self.z),
            TileID::spec_new(self.x, py, self.z),
            TileID::spec_new(nx, py, self.z),
            TileID::spec_new(px, self.y, self.z),
            TileID::spec_new(nx, self.y, self.z),
            TileID::spec_new(px, ny, self.z),
            TileID::spec_new(self.x, ny, self.z),
            TileID::spec_new(nx, ny, self.z),
        ]
    }

    /// Returns the 8 neighbors of the tile, in the fixed order
    /// NW, N, NE, W, E, SW, S, SE, wrapping around the grid on both axes.
    pub fn neighbors(self) -> (r: Vec<TileID>)
        requires
            self.is_valid(),
        ensures
            r@.len() == 8,
            r@ == self.spec_neighbors(),
            forall|i: int| 0 <= i < 8 ==> (#[trigger] r@[i]).is_valid() && r@[i].z == self.z,
            self.z >= 2 ==> forall|i: int, j: int| 0 <= i < j < 8 ==> r@[i] != r@[j],
    {
        let z = self.z;
        proof {
            assert(z <= 31 ==> 1u32 << z >= 1) by (bit_vector);
            assert(z >= 2 && z <= 31 ==> 1u32 << z >= 4) by (bit_vector);
        }
        let side: u32 = 1u32 << z;
        let bound: u32 = side - 1;
        let prev_x: u32 = if self.x == 0 { bound } else { self.x - 1 };
        let prev_y: u32 = if self.y == 0 { bound } else { self.y - 1 };
        proof {
            let x = self.x;
            let y = self.y;
            assert(z <= 31 && x < (1u32 << z) ==> (((x + 1) as u32) & (((1u32 << z) - 1) as u32)) == (
            if (x + 1) as u32 == (1u32 << z) {
                0u32
            } else {
                (x + 1) as u32
            })) by (bit_vector);
            assert(z <= 31 && y < (1u32 << z) ==> (((y + 1) as u32) & (((1u32 << z) - 1) as u32)) == (
            if (y + 1) as u32 == (1u32 << z) {
                0u32
            } else {
                (y + 1) as u32
            })) by (bit_vector);
        }
        let next_x: u32 = (self.x + 1) & bound;
        let next_y: u32 = (self.y + 1) & bound;
        assert(next_x == TileID::inc_wrap(self.x, side));
        assert(next_y == TileID::inc_wrap(self.y, side));
        let zoom = self.zoom();
        let mut r: Vec<TileID> = Vec::new();
        r.push(TileID::new_unchecked(prev_x, prev_y, zoom));
        r.push(TileID::new_unchecked(self.x, prev_y, zoom));
        r.push(TileID::new_unchecked(next_x, prev_y, zoom));
        r.push(TileID::new_unchecked(prev_x, self.y, zoom));
        r.push(TileID::new_unchecked(next_x, self.y, zoom));
        r.push(TileID::new_unchecked(prev_x, next_y, zoom));
        r.push(TileID::new_unchecked(self.x, next_y, zoom));
        r.push(TileID::new_unchecked(next_x, next_y, zoom));
        proof {
            assert(r@ =~= self.spec_neighbors());
        }
        r
    }

    /// Returns the extent size, in pixels.
    pub fn extent() -> (r: u32)
        ensures
            r == 4096,
    {
        TILE_SIZE
    }

    /// Returns true if the tile is in the eastern hemisphere.
    pub fn is_eastern(&self) -> (r: bool)
        requires
            self.is_valid(),
        ensures
            r == (self.x > self.side() / 2),
    {
        self.x > ((1u32 << self.z) / 2)
    }
}

} // verus!
