use geo::{Coord, Polygon, Rect};
use h3o::geom::{ContainmentMode, TilerBuilder};
use h3o::{CellIndex, Resolution};
use hexmvt::bbox::GridRect;
use hexmvt::cells::polyfill_resolution;
use hexmvt::tile::TileID;
use std::collections::HashSet;

// Polyfilling runs on lon/lat shapes, which the verified core cannot hold;
// this helper converts the core's exact fixed-point bounding box for the
// tiler, as the renderer's edge does.

fn grid_rect_to_polygon(rect: &GridRect, z: u8) -> Polygon {
    let n = f64::from(1u32 << u32::from(z));
    let lon = |ticks: i64| (ticks as f64) / (512.0 * n) * 360.0 - 180.0;
    let lat = |ticks: i64| {
        let y = (ticks as f64) / (512.0 * n);
        (std::f64::consts::PI * (1.0 - 2.0 * y)).sinh().atan().to_degrees()
    };
    Rect::new(
        Coord { x: lon(rect.min_x), y: lat(rect.max_y) },
        Coord { x: lon(rect.max_x), y: lat(rect.min_y) },
    )
    .to_polygon()
}

fn tile_cells(tile: TileID, resolution: Resolution) -> HashSet<CellIndex> {
    let zoom = tile.zoom();
    let working = polyfill_resolution(zoom, u8::from(resolution));
    let working = Resolution::try_from(working).expect("valid resolution");
    let mut tiler = TilerBuilder::new(working)
        .containment_mode(ContainmentMode::Covers)
        .build();
    let parts = tile.compute_bbox();
    tiler
        .add_batch(parts.iter().map(|part| grid_rect_to_polygon(part, zoom)))
        .expect("invalid bbox");
    tiler
        .into_coverage()
        .flat_map(move |cell| cell.children(resolution))
        .collect()
}

fn cells(raw: &[u64]) -> HashSet<CellIndex> {
    raw.iter()
        .map(|&v| CellIndex::try_from(v).expect("valid cell"))
        .collect()
}

#[test]
fn regular_bbox() {
    let tile = TileID::new_unchecked(265544, 180338, 19);
    let expected = cells(&[0x8a1fb46664e7fff]);

    let result = tile_cells(tile, Resolution::Ten);

    assert_eq!(result, expected);
}

#[test]
fn bbox_transmeridian_right() {
    let tile = TileID::new_unchecked(0, 71776, 17);
    let expected = cells(&[
        0x8a9b4361e607fff,
        0x8a9b4361e62ffff,
        0x8a9b4361e677fff,
        0x8a9b4361e627fff,
        0x8a9b4361e667fff,
        0x8a9b4361e70ffff,
        0x8a9b4361e75ffff,
        0x8a9b4361e747fff,
        0x8a9b4361e71ffff,
        0x8a9b4361e60ffff,
        0x8a9b4361e657fff,
        0x8a9b4361e757fff,
        0x8a9b4361e61ffff,
        0x8a9b4361e647fff,
    ]);

    let result = tile_cells(tile, Resolution::Ten);

    assert_eq!(result, expected);
}

#[test]
fn bbox_transmeridian_left() {
    let tile = TileID::new_unchecked(131071, 71776, 17);
    let expected = cells(&[
        0x8a9b4361e75ffff,
        0x8a9b4361e74ffff,
        0x8a9b4361e29ffff,
        0x8a9b4361e287fff,
        0x8a9b4361e747fff,
        0x8a9b4361e76ffff,
        0x8a9b4361e297fff,
        0x8a9b4361e28ffff,
        0x8a9b4361e66ffff,
        0x8a9b4361e2b7fff,
        0x8a9b4361e2a7fff,
        0x8a9b4361e667fff,
        0x8a9b4361e647fff,
        0x8a9b4361a927fff,
    ]);

    let result = tile_cells(tile, Resolution::Ten);

    assert_eq!(result, expected);
}
