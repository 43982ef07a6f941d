use hexmvt::geom::{IntRect, PixelCoord, PixelPolygon};
use hexmvt::render::{carve_out_from_tile, plan_features, polygon_is_visible, FeaturePlan};
use hexmvt::tile::TileID;

fn ring(pts: &[(i64, i64)]) -> Vec<PixelCoord> {
    pts.iter().map(|&(x, y)| PixelCoord { x, y }).collect()
}

fn polygon(exterior: &[(i64, i64)], interiors: &[&[(i64, i64)]]) -> PixelPolygon {
    PixelPolygon {
        exterior: ring(exterior),
        interiors: interiors.iter().map(|pts| ring(pts)).collect(),
    }
}

#[test]
fn culling_outside() {
    let poly = polygon(&[(100, -100), (100, -888), (888, -888), (888, -100)], &[]);
    assert!(!polygon_is_visible(&poly));
}

#[test]
fn culling_inside() {
    let poly = polygon(&[(100, 100), (100, 888), (888, 888), (888, 100)], &[]);
    assert!(polygon_is_visible(&poly));
}

#[test]
fn culling_partial() {
    let poly = polygon(&[(-100, -100), (-100, 888), (888, 888), (888, -100)], &[]);
    assert!(polygon_is_visible(&poly));
}

#[test]
fn culling_around() {
    let poly = polygon(&[(-100, -100), (-100, 5000), (5000, 5000), (5000, -100)], &[]);
    assert!(polygon_is_visible(&poly));
}

#[test]
fn culling_touching_buffer_edge() {
    // The buffered shape is closed: touching its edge counts as visible.
    let poly = polygon(&[(-200, -200), (-200, -80), (-80, -80), (-80, -200)], &[]);
    assert!(polygon_is_visible(&poly));
    let poly = polygon(&[(-200, -200), (-200, -81), (-81, -81), (-81, -200)], &[]);
    assert!(!polygon_is_visible(&poly));
}

#[test]
fn buffered_shape_is_padded_tile() {
    assert_eq!(
        TileID::buffered_shape(),
        IntRect { min_x: -80, min_y: -80, max_x: 4176, max_y: 4176 },
    );
}

#[test]
fn carve_out_single_square() {
    // One filled square inside the tile becomes a hole in the filled tile.
    let shape = vec![polygon(&[(100, 100), (100, 200), (200, 200), (200, 100), (100, 100)], &[])];
    let expected = vec![polygon(
        &[(-80, -80), (-80, 4176), (4176, 4176), (4176, -80)],
        // The square is rewound counter-clockwise when it becomes a hole.
        &[&[(100, 100), (200, 100), (200, 200), (100, 200), (100, 100)]],
    )];

    let res = carve_out_from_tile(shape);

    assert_eq!(res, expected);
}

#[test]
fn carve_out_empty_shape_fills_tile() {
    let res = carve_out_from_tile(Vec::new());
    let expected = vec![polygon(&[(-80, -80), (-80, 4176), (4176, 4176), (4176, -80)], &[])];
    assert_eq!(res, expected);
}

#[test]
fn carve_out_expands_beyond_overflowing_shape() {
    // A shape sticking out of the buffered tile pushes the enclosing
    // rectangle one pixel past its envelope.
    let shape = vec![polygon(&[(4000, 4000), (4000, 4300), (4300, 4300), (4300, 4000), (4000, 4000)], &[])];
    let res = carve_out_from_tile(shape);
    assert_eq!(res.len(), 1);
    assert_eq!(
        res[0].exterior,
        ring(&[(-80, -80), (-80, 4301), (4301, 4301), (4301, -80)]),
    );
    assert_eq!(res[0].interiors.len(), 1);
}

#[test]
fn empty_render_has_no_feature() {
    let plan = plan_features(Vec::new(), false, false);
    assert!(matches!(plan, FeaturePlan::NoFeature));
}

#[test]
fn empty_scratch_render_fills_tile() {
    let plan = plan_features(Vec::new(), false, true);
    match plan {
        FeaturePlan::TileRect(rect) => {
            assert_eq!(rect, IntRect { min_x: -80, min_y: -80, max_x: 4176, max_y: 4176 });
        },
        _ => panic!("expected the buffered tile rectangle"),
    }
}

#[test]
fn render_culls_invisible_polygons() {
    let visible = polygon(&[(0, 0), (0, 10), (10, 10), (10, 0), (0, 0)], &[]);
    let invisible = polygon(&[(9000, 9000), (9000, 9010), (9010, 9010), (9010, 9000), (9000, 9000)], &[]);
    let plan = plan_features(vec![invisible, visible.clone()], true, false);
    match plan {
        FeaturePlan::Shape(shape) => {
            assert_eq!(shape, vec![visible]);
        },
        _ => panic!("expected a shape"),
    }
}

#[test]
fn scratch_render_inverts_shape() {
    let square = polygon(&[(100, 100), (100, 200), (200, 200), (200, 100), (100, 100)], &[]);
    let plan = plan_features(vec![square], true, true);
    match plan {
        FeaturePlan::Shape(shape) => {
            assert_eq!(shape.len(), 1);
            assert_eq!(
                shape[0].exterior,
                ring(&[(-80, -80), (-80, 4176), (4176, 4176), (4176, -80)]),
            );
            assert_eq!(shape[0].interiors.len(), 1);
        },
        _ => panic!("expected a shape"),
    }
}
