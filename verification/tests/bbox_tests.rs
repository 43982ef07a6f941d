use hexmvt::bbox::GridRect;
use hexmvt::tile::TileID;

const EPSILON: f64 = 1e-5;

// One tile-grid unit is 512 fixed-point ticks.
const SCALE: f64 = 512.0;

fn lon_of(ticks: i64, z: u8) -> f64 {
    let n = f64::from(1u32 << z);
    (ticks as f64) / (SCALE * n) * 360.0 - 180.0
}

fn lat_of(ticks: i64, z: u8) -> f64 {
    let n = f64::from(1u32 << z);
    let y = (ticks as f64) / (SCALE * n);
    (std::f64::consts::PI * (1.0 - 2.0 * y)).sinh().atan().to_degrees()
}

fn assert_close(a: f64, b: f64) {
    assert!((a - b).abs() <= EPSILON, "{a} != {b}");
}

// Checks one rectangle of the bounding box against its west/east longitudes
// and north/south latitudes.
fn assert_rect(r: &GridRect, z: u8, west: f64, south: f64, east: f64, north: f64) {
    assert_close(lon_of(r.min_x, z), west);
    assert_close(lon_of(r.max_x, z), east);
    // The grid y axis points down: min_y is the northern edge.
    assert_close(lat_of(r.min_y, z), north);
    assert_close(lat_of(r.max_y, z), south);
}

#[test]
fn bbox_z1_nw() {
    let tile = TileID::new_unchecked(0, 0, 1);
    let result = tile.compute_bbox();
    assert_eq!(result.len(), 3, "bbox pieces count");
    // Main bbox, left part.
    assert_rect(&result[0], 1, -180.0, -3.51342, -88.24218, 85.34532);
    // Main bbox, right part.
    assert_rect(&result[1], 1, -88.24218, -3.51342, 3.515625, 85.34532);
    // Clamped left part, reprojected to the right.
    assert_rect(&result[2], 1, 176.48437, -3.51342, 180.0, 85.34532);
}

#[test]
fn bbox_z1_ne() {
    let tile = TileID::new_unchecked(1, 0, 1);
    let result = tile.compute_bbox();
    assert_eq!(result.len(), 3, "bbox pieces count");
    assert_rect(&result[0], 1, -3.51562, -3.51342, 88.24218, 85.34532);
    assert_rect(&result[1], 1, 88.24218, -3.51342, 180.0, 85.34532);
    // Clamped right part, reprojected to the left.
    assert_rect(&result[2], 1, -180.0, -3.51342, -176.48437, 85.34532);
}

#[test]
fn bbox_z1_sw() {
    let tile = TileID::new_unchecked(0, 1, 1);
    let result = tile.compute_bbox();
    assert_eq!(result.len(), 3, "bbox pieces count");
    assert_rect(&result[0], 1, -180.0, -85.34532, -88.24218, 3.51342);
    assert_rect(&result[1], 1, -88.2421875, -85.34532, 3.515625, 3.51342);
    assert_rect(&result[2], 1, 176.48437, -85.34532, 180.0, 3.51342);
}

#[test]
fn bbox_z1_se() {
    let tile = TileID::new_unchecked(1, 1, 1);
    let result = tile.compute_bbox();
    assert_eq!(result.len(), 3, "bbox pieces count");
    assert_rect(&result[0], 1, -3.51562, -85.34532, 88.24218, 3.51342);
    assert_rect(&result[1], 1, 88.24218, -85.34532, 180.0, 3.51342);
    assert_rect(&result[2], 1, -180.0, -85.34532, -176.48437, 3.51342);
}

#[test]
fn bbox_trivial_inner_tile() {
    // An inner tile away from the world's edges is a single padded rectangle.
    let tile = TileID::new_unchecked(2, 3, 3);
    let result = tile.compute_bbox();
    assert_eq!(result.len(), 1);
    let r = &result[0];
    assert_eq!(r.min_x, 2 * 512 - 10);
    assert_eq!(r.max_x, 3 * 512 + 10);
    assert_eq!(r.min_y, 3 * 512 - 10);
    assert_eq!(r.max_y, 4 * 512 + 10);
}

#[test]
fn bbox_antimeridian_tile() {
    // The westernmost column at a deep zoom: one clamped main part plus the
    // sliver that wraps around the antimeridian.
    let tile = TileID::new_unchecked(0, 4, 4);
    let result = tile.compute_bbox();
    assert_eq!(result.len(), 2);
    assert_eq!(result[0].min_x, 0);
    assert_eq!(result[0].max_x, 512 + 10);
    assert_eq!(result[1].min_x, 16 * 512 - 10);
    assert_eq!(result[1].max_x, 16 * 512);
}

#[test]
fn bbox_z0_splits_world() {
    // The whole world: clamped, split down the middle, and both overflows
    // re-entering from the opposite side.
    let tile = TileID::new_unchecked(0, 0, 0);
    let result = tile.compute_bbox();
    assert_eq!(result.len(), 4);
    assert_eq!((result[0].min_x, result[0].max_x), (0, 256));
    assert_eq!((result[1].min_x, result[1].max_x), (256, 512));
    assert_eq!((result[2].min_x, result[2].max_x), (502, 512));
    assert_eq!((result[3].min_x, result[3].max_x), (0, 10));
}
