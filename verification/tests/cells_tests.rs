use hexmvt::cells::{cells_zoom_zero, polyfill_resolution};

#[test]
fn bbox_z0() {
    // The zoom-0 tile covered at resolution 0 is exactly the base cells.
    let mut result = cells_zoom_zero(0);
    result.sort_unstable();
    result.dedup();

    let mut expected: Vec<u64> =
        h3o::CellIndex::base_cells().map(u64::from).collect();
    expected.sort_unstable();

    assert_eq!(result, expected);
}

#[test]
fn world_coverage_expands_children() {
    // At resolution 1 the world holds every child of every base cell.
    let mut result = cells_zoom_zero(1);
    result.sort_unstable();
    result.dedup();

    let mut expected: Vec<u64> = h3o::CellIndex::base_cells()
        .flat_map(|cell| cell.children(h3o::Resolution::One))
        .map(u64::from)
        .collect();
    expected.sort_unstable();

    assert_eq!(result, expected);
}

#[test]
fn polyfill_resolution_table() {
    // The working resolution per zoom level, unconstrained by the request.
    let expected: [(u8, u8); 17] = [
        (0, 0),
        (1, 0),
        (2, 1),
        (3, 2),
        (4, 2),
        (5, 3),
        (6, 4),
        (7, 4),
        (8, 5),
        (9, 6),
        (10, 7),
        (11, 7),
        (12, 8),
        (13, 9),
        (14, 9),
        (15, 10),
        (19, 10),
    ];
    for (zoom, res) in expected {
        assert_eq!(polyfill_resolution(zoom, 15), res, "zoom {zoom}");
    }
}

#[test]
fn polyfill_resolution_caps_at_request() {
    assert_eq!(polyfill_resolution(19, 10), 10);
    assert_eq!(polyfill_resolution(19, 3), 3);
    assert_eq!(polyfill_resolution(0, 5), 0);
    assert_eq!(polyfill_resolution(12, 8), 8);
}
