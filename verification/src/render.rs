//! Pixel-space steps of the renderer: visibility culling, the scratch
//! carve-out and the choice of what a tile's layer shows.
//!
//! These steps run after the dissolved shape has been reprojected into
//! tile-local pixel coordinates, where every vertex is an integer, and before
//! the result is encoded as an MVT feature.

use vstd::prelude::*;
use crate::geom::{
    bounding_rect, make_ccw, make_cw, rect_of, ring_ok, spec_make_ccw, spec_make_cw, spec_max_x,
    spec_max_y, spec_min_x, spec_min_y, IntRect, PixelCoord, PixelPolygon, Ring, RING_LIMIT,
};
use crate::ring_hierarchy::{
    appears_in_output, emitted_as_exterior, is_pool_ring, is_pool_ring_cw, is_widest_pool_ring,
    uncontained_in_pool, RingHierarchy,
};
use crate::tile::TileID;

verus! {

/// Largest coordinate magnitude of a reprojected vertex.
///
/// Reprojection truncates to 32-bit pixel coordinates, and the carve-out may
/// step one pixel beyond them.
pub const PIXEL_LIMIT: i64 = 0x1_0000_0000;

/// A vertex as the reprojection hands it over: within one step of the 32-bit
/// pixel range.
pub open spec fn coord_small(c: PixelCoord) -> bool {
    &&& -PIXEL_LIMIT <= c.x <= PIXEL_LIMIT
    &&& -PIXEL_LIMIT <= c.y <= PIXEL_LIMIT
}

/// All coordinates of the ring are within the reprojected range.
pub open spec fn ring_small(s: Seq<PixelCoord>) -> bool {
    forall|i: int| 0 <= i < s.len() ==> coord_small(#[trigger] s[i])
}

/// A polygon the renderer can process: a non-empty exterior and rings of
/// reprojected vertices.
pub open spec fn polygon_ok(p: PixelPolygon) -> bool {
    &&& ring_ok(p.exterior@)
    &&& ring_small(p.exterior@)
    &&& p.interiors@.len() <= RING_LIMIT
    &&& forall|l: int|
        0 <= l < p.interiors@.len() ==> ring_ok((#[trigger] p.interiors@[l])@) && ring_small(
            p.interiors@[l]@,
        )
}

/// All polygons of the shape are processable.
pub open spec fn shape_ok(s: Seq<PixelPolygon>) -> bool {
    forall|k: int| 0 <= k < s.len() ==> polygon_ok(#[trigger] s[k])
}

/// The buffered shape of a tile: its rectangle grown by the buffer on every
/// side, in tile-local pixel coordinates.
pub open spec fn spec_buffered_shape() -> IntRect {
    IntRect { min_x: -80i64, min_y: -80i64, max_x: 4176i64, max_y: 4176i64 }
}

impl TileID {
    /// Returns the buffered shape of a tile, in relative tile coordinates.
    pub fn buffered_shape() -> (r: IntRect)
        ensures
            r == spec_buffered_shape(),
    {
        IntRect { min_x: -80i64, min_y: -80i64, max_x: 4176i64, max_y: 4176i64 }
    }
}

/// A polygon is visible exactly when its bounding rectangle meets the
/// buffered tile shape.
pub open spec fn spec_polygon_is_visible(p: PixelPolygon) -> bool {
    spec_buffered_shape().spec_intersects(rect_of(p.exterior@))
}

/// Visibility, as a predicate value for sequence filtering.
pub open spec fn visible_pred() -> spec_fn(PixelPolygon) -> bool {
    |p: PixelPolygon| spec_polygon_is_visible(p)
}

/// Check if the polygon is visible in the tile.
///
/// Visibility is decided on the polygon's bounding rectangle alone: shapes
/// outside the tile would not be rendered anyway, this only prunes the
/// obvious ones cheaply.
pub fn polygon_is_visible(polygon: &PixelPolygon) -> (r: bool)
    requires
        polygon.exterior@.len() >= 1,
    ensures
        r == spec_polygon_is_visible(*polygon),
{
    let tile = TileID::buffered_shape();
    let bbox = bounding_rect(&polygon.exterior);
    tile.intersects(&bbox)
}

/// Drops every polygon whose bounding rectangle misses the buffered tile.
pub fn cull_polygons(shape: Vec<PixelPolygon>) -> (r: Vec<PixelPolygon>)
    requires
        shape_ok(shape@),
    ensures
        r@ == shape@.filter(visible_pred()),
        shape_ok(r@),
{
    let ghost orig = shape@;
    let mut rest = shape;
    let mut r: Vec<PixelPolygon> = Vec::new();
    proof {
        assert(orig.take(0int).filter(visible_pred()) =~= Seq::<PixelPolygon>::empty());
        assert(rest@ =~= orig.skip(0int));
    }
    while rest.len() > 0
        invariant
            shape_ok(orig),
            rest@.len() <= orig.len(),
            rest@ =~= orig.skip(orig.len() - rest@.len()),
            r@ == orig.take(orig.len() - rest@.len()).filter(visible_pred()),
            shape_ok(r@),
        decreases rest@.len(),
    {
        let ghost k = orig.len() - rest@.len();
        let p = rest.remove(0);
        proof {
            assert(p == orig[k as int]);
            assert(rest@ =~= orig.skip(k as int + 1));
            assert(polygon_ok(p));
        }
        let visible = polygon_is_visible(&p);
        if visible {
            r.push(p);
        }
        proof {
            let t = orig.take(k as int + 1);
            assert(t.drop_last() =~= orig.take(k as int));
            assert(t.last() == orig[k as int]);
            reveal_with_fuel(Seq::<PixelPolygon>::filter, 2);
            assert(visible_pred()(p) == spec_polygon_is_visible(p));
            assert(r@ =~= t.filter(visible_pred()));
        }
    }
    proof {
        assert(orig.take(orig.len() as int) =~= orig);
    }
    r
}

/// The union of two rectangles' bounds.
pub open spec fn spec_rect_union(a: IntRect, b: IntRect) -> IntRect {
    IntRect {
        min_x: if b.min_x < a.min_x {
            b.min_x
        } else {
            a.min_x
        },
        min_y: if b.min_y < a.min_y {
            b.min_y
        } else {
            a.min_y
        },
        max_x: if b.max_x > a.max_x {
            b.max_x
        } else {
            a.max_x
        },
        max_y: if b.max_y > a.max_y {
            b.max_y
        } else {
            a.max_y
        },
    }
}

/// The bounding rectangle of a whole (non-empty) shape: the union of its
/// polygons' bounding rectangles, which cover the exterior rings.
pub open spec fn shape_rect(s: Seq<PixelPolygon>) -> IntRect
    decreases s.len(),
{
    if s.len() <= 1 {
        rect_of(s[0].exterior@)
    } else {
        spec_rect_union(shape_rect(s.drop_last()), rect_of(s.last().exterior@))
    }
}

/// The enclosing rectangle of the carved-out tile: the buffered tile shape,
/// grown to one pixel beyond the shape's own envelope wherever the shape
/// sticks out of it.
pub open spec fn carve_boundaries(s: Seq<PixelPolygon>) -> IntRect {
    let b = spec_buffered_shape();
    if s.len() == 0 {
        b
    } else {
        let e = shape_rect(s);
        IntRect {
            min_x: if e.min_x - 1 < b.min_x {
                (e.min_x - 1) as i64
            } else {
                b.min_x
            },
            min_y: if e.min_y - 1 < b.min_y {
                (e.min_y - 1) as i64
            } else {
                b.min_y
            },
            max_x: if e.max_x + 1 > b.max_x {
                (e.max_x + 1) as i64
            } else {
                b.max_x
            },
            max_y: if e.max_y + 1 > b.max_y {
                (e.max_y + 1) as i64
            } else {
                b.max_y
            },
        }
    }
}

/// The four corners of the enclosing rectangle, as an (unclosed) ring.
pub open spec fn outer_ring_of(r: IntRect) -> Seq<PixelCoord> {
    seq![
        PixelCoord { x: r.min_x, y: r.min_y },
        PixelCoord { x: r.min_x, y: r.max_y },
        PixelCoord { x: r.max_x, y: r.max_y },
        PixelCoord { x: r.max_x, y: r.min_y },
    ]
}

/// A polygon's rings with their winding normalized: the exterior
/// counter-clockwise, the holes clockwise.
pub open spec fn normalized_rings(p: PixelPolygon) -> Seq<Seq<PixelCoord>> {
    seq![spec_make_ccw(p.exterior@)] + Seq::new(
        p.interiors@.len(),
        |l: int| spec_make_cw(p.interiors@[l]@),
    )
}

/// All rings of the shape, polygon by polygon, winding normalized.
pub open spec fn shape_pool(s: Seq<PixelPolygon>) -> Seq<Seq<PixelCoord>>
    decreases s.len(),
{
    if s.len() == 0 {
        Seq::empty()
    } else {
        shape_pool(s.drop_last()) + normalized_rings(s.last())
    }
}

/// The rings the carve-out nests: the shape's rings, turned inside out by the
/// winding normalization, plus the enclosing rectangle.
pub open spec fn carve_pool(s: Seq<PixelPolygon>) -> Seq<Seq<PixelCoord>> {
    shape_pool(s).push(outer_ring_of(carve_boundaries(s)))
}

/// What the carve-out promises: at least one polygon; every ring of the
/// result is one of the pool's rings (exteriors rewound clockwise on emit);
/// every pool ring reappears somewhere in the result, so nothing is lost;
/// the first polygon's exterior is a pool ring of widest bounding box — the
/// enclosing rectangle, whenever the shape's rings all fit inside it; and
/// every pool ring whose bounding box no other pool ring's contains — the
/// outermost ring of each separate part of the shape — reappears as the
/// exterior of some polygon of the result.
pub open spec fn carve_result_ok(out: Seq<PixelPolygon>, input: Seq<PixelPolygon>) -> bool {
    &&& out.len() >= 1
    &&& forall|k: int|
        0 <= k < out.len() ==> is_pool_ring_cw((#[trigger] out[k]).exterior@, carve_pool(input))
    &&& forall|k: int, l: int|
        0 <= k < out.len() && 0 <= l < out[k].interiors@.len() ==> is_pool_ring(
            (#[trigger] out[k].interiors@[l])@,
            carve_pool(input),
        )
    &&& exists|j0: int|
        is_widest_pool_ring(j0, carve_pool(input)) && out[0].exterior@ == spec_make_cw(
            carve_pool(input)[j0],
        )
    &&& forall|j: int|
        uncontained_in_pool(j, carve_pool(input)) ==> emitted_as_exterior(
            carve_pool(input)[j],
            out,
        )
    &&& forall|j: int|
        0 <= j < carve_pool(input).len() ==> appears_in_output(
            #[trigger] carve_pool(input)[j],
            out,
        )
}

/// The views of a sequence of rings.
pub open spec fn views_of(rings: Seq<Ring>) -> Seq<Seq<PixelCoord>> {
    Seq::new(rings.len(), |j: int| rings[j]@)
}

/// Appending a ring appends its view.
proof fn lemma_views_push(rings: Seq<Ring>, v: Ring)
    ensures
        views_of(rings.push(v)) =~~= views_of(rings).push(v@),
{
}

/// The extreme coordinates of a ring of reprojected vertices stay in the
/// reprojected range.
proof fn lemma_rect_of_small(s: Seq<PixelCoord>)
    requires
        s.len() >= 1,
        ring_small(s),
    ensures
        -PIXEL_LIMIT <= spec_min_x(s) <= PIXEL_LIMIT,
        -PIXEL_LIMIT <= spec_max_x(s) <= PIXEL_LIMIT,
        -PIXEL_LIMIT <= spec_min_y(s) <= PIXEL_LIMIT,
        -PIXEL_LIMIT <= spec_max_y(s) <= PIXEL_LIMIT,
    decreases s.len(),
{
    if s.len() > 1 {
        lemma_rect_of_small(s.drop_last());
        assert(coord_small(s.last()));
    } else {
        assert(coord_small(s[0]));
    }
}

/// Inverts the shape within the tile: the result covers the enclosing
/// rectangle minus the shape, with the shape's rings as holes.
///
/// The shape's own winding is first normalized (exteriors counter-clockwise,
/// holes clockwise); pooled together with the enclosing rectangle and
/// re-nested, the old exteriors become holes of the rectangle and the old
/// holes become filled islands again.
pub fn carve_out_from_tile(shape: Vec<PixelPolygon>) -> (out: Vec<PixelPolygon>)
    requires
        shape_ok(shape@),
    ensures
        carve_result_ok(out@, shape@),
{
    let ghost orig = shape@;
    // The enclosing rectangle.
    let bbox = TileID::buffered_shape();
    let mut boundaries = bbox;
    if shape.len() > 0 {
        let mut env = bounding_rect(&shape[0].exterior);
        proof {
            assert(env == shape_rect(orig.take(1int)));
            lemma_rect_of_small(orig[0].exterior@);
        }
        let mut i: usize = 1;
        while i < shape.len()
            invariant
                1 <= i <= orig.len(),
                shape@ == orig,
                shape_ok(orig),
                env == shape_rect(orig.take(i as int)),
                -PIXEL_LIMIT <= env.min_x <= PIXEL_LIMIT,
                -PIXEL_LIMIT <= env.min_y <= PIXEL_LIMIT,
                -PIXEL_LIMIT <= env.max_x <= PIXEL_LIMIT,
                -PIXEL_LIMIT <= env.max_y <= PIXEL_LIMIT,
            decreases orig.len() - i,
        {
            let r2 = bounding_rect(&shape[i].exterior);
            proof {
                lemma_rect_of_small(orig[i as int].exterior@);
                let t = orig.take(i as int + 1);
                assert(t.drop_last() =~= orig.take(i as int));
                assert(t.last() == orig[i as int]);
            }
            env = IntRect {
                min_x: if r2.min_x < env.min_x {
                    r2.min_x
                } else {
                    env.min_x
                },
                min_y: if r2.min_y < env.min_y {
                    r2.min_y
                } else {
                    env.min_y
                },
                max_x: if r2.max_x > env.max_x {
                    r2.max_x
                } else {
                    env.max_x
                },
                max_y: if r2.max_y > env.max_y {
                    r2.max_y
                } else {
                    env.max_y
                },
            };
            i += 1;
        }
        proof {
            assert(orig.take(orig.len() as int) =~= orig);
        }
        boundaries = IntRect {
            min_x: if env.min_x - 1 < bbox.min_x {
                env.min_x - 1
            } else {
                bbox.min_x
            },
            min_y: if env.min_y - 1 < bbox.min_y {
                env.min_y - 1
            } else {
                bbox.min_y
            },
            max_x: if env.max_x + 1 > bbox.max_x {
                env.max_x + 1
            } else {
                bbox.max_x
            },
            max_y: if env.max_y + 1 > bbox.max_y {
                env.max_y + 1
            } else {
                bbox.max_y
            },
        };
    }
    proof {
        assert(boundaries == carve_boundaries(orig));
    }
    let mut exterior: Ring = Vec::new();
    exterior.push(PixelCoord { x: boundaries.min_x, y: boundaries.min_y });
    exterior.push(PixelCoord { x: boundaries.min_x, y: boundaries.max_y });
    exterior.push(PixelCoord { x: boundaries.max_x, y: boundaries.max_y });
    exterior.push(PixelCoord { x: boundaries.max_x, y: boundaries.min_y });
    proof {
        assert(exterior@ =~= outer_ring_of(boundaries));
    }
    // Deconstruct the shape into winding-normalized rings.
    let mut rings: Vec<Ring> = Vec::new();
    let mut rest = shape;
    proof {
        assert(rest@ =~= orig.skip(0int));
        assert(views_of(rings@) =~~= shape_pool(orig.take(0int)));
    }
    while rest.len() > 0
        invariant
            shape_ok(orig),
            rest@.len() <= orig.len(),
            rest@ =~= orig.skip(orig.len() - rest@.len()),
            views_of(rings@) == shape_pool(orig.take(orig.len() - rest@.len())),
            forall|j: int| 0 <= j < rings@.len() ==> ring_ok((#[trigger] rings@[j])@),
        decreases rest@.len(),
    {
        let ghost k = orig.len() - rest@.len();
        let p = rest.remove(0);
        proof {
            assert(p == orig[k as int]);
            assert(rest@ =~= orig.skip(k as int + 1));
            assert(polygon_ok(p));
        }
        let ghost rings_before = views_of(rings@);
        let ghost rings_pre_push = rings@;
        rings.push(make_ccw(p.exterior));
        let mut ints = p.interiors;
        let ghost all_ints = ints@;
        proof {
            assert(rings@ =~= rings_pre_push.push(rings@.last()));
            lemma_views_push(rings_pre_push, rings@.last());
            assert(views_of(rings@) =~~= rings_before + seq![spec_make_ccw(p.exterior@)]);
        }
        while ints.len() > 0
            invariant
                forall|l: int| 0 <= l < all_ints.len() ==> ring_ok((#[trigger] all_ints[l])@),
                ints@.len() <= all_ints.len(),
                ints@ =~= all_ints.skip(all_ints.len() - ints@.len()),
                views_of(rings@) == rings_before + seq![spec_make_ccw(p.exterior@)] + Seq::new(
                    (all_ints.len() - ints@.len()) as nat,
                    |l: int| spec_make_cw(all_ints[l]@),
                ),
                forall|j: int| 0 <= j < rings@.len() ==> ring_ok((#[trigger] rings@[j])@),
            decreases ints@.len(),
        {
            let ghost l = all_ints.len() - ints@.len();
            let r0 = ints.remove(0);
            proof {
                assert(r0 == all_ints[l as int]);
                assert(ints@ =~= all_ints.skip(l as int + 1));
                assert(ring_ok(r0@));
            }
            let ghost rings_pre = rings@;
            rings.push(make_cw(r0));
            proof {
                assert(rings@ =~= rings_pre.push(rings@.last()));
                lemma_views_push(rings_pre, rings@.last());
                assert((rings@.last())@ == spec_make_cw(all_ints[l as int]@));
                assert(Seq::new((l + 1) as nat, |l2: int| spec_make_cw(all_ints[l2]@)) =~~= Seq::new(
                    (l) as nat,
                    |l2: int| spec_make_cw(all_ints[l2]@),
                ).push(spec_make_cw(all_ints[l as int]@)));
                assert(views_of(rings@) =~~= rings_before + seq![spec_make_ccw(p.exterior@)]
                    + Seq::new((l + 1) as nat, |l2: int| spec_make_cw(all_ints[l2]@)));
            }
        }
        proof {
            let t = orig.take(k as int + 1);
            assert(t.drop_last() =~= orig.take(k as int));
            assert(t.last() == orig[k as int]);
            assert(Seq::new(all_ints.len(), |l: int| spec_make_cw(all_ints[l]@)) =~~= Seq::new(
                p.interiors@.len(),
                |l: int| spec_make_cw(p.interiors@[l]@),
            ));
            assert(views_of(rings@) =~~= shape_pool(t));
        }
    }
    let ghost rings_final_pre = rings@;
    rings.push(exterior);
    proof {
        lemma_views_push(rings_final_pre, exterior);
        assert(orig.take(orig.len() as int) =~= orig);
        assert(views_of(rings@) =~~= carve_pool(orig));
    }
    // Rebuild the nesting: the rectangle becomes the outermost exterior and
    // the shape's rings its holes and islands.
    let hierarchy = RingHierarchy::new(rings);
    let out = hierarchy.into_multi_polygon();
    out
}

/// What a rendered tile layer shows: nothing, the dissolved shape, or — for
/// a scratch rendering of an empty shape — the buffered tile rectangle as a
/// solid fill.
pub enum FeaturePlan {
    NoFeature,
    Shape(Vec<PixelPolygon>),
    TileRect(IntRect),
}

/// Decides what the tile's layer shows, after the dissolved cells have been
/// reprojected into tile-local pixel coordinates.
///
/// `had_shape` says whether the dissolution produced any polygon at all
/// (before culling).  With a shape, the visible polygons are kept and, in
/// scratch mode, inverted by the carve-out.  Without one, scratch mode still
/// fills the whole tile; otherwise the layer is empty.
pub fn plan_features(shape: Vec<PixelPolygon>, had_shape: bool, scratch: bool) -> (r: FeaturePlan)
    requires
        shape_ok(shape@),
    ensures
        !had_shape && !scratch ==> r is NoFeature,
        !had_shape && scratch ==> (r matches FeaturePlan::TileRect(b) && b
            == spec_buffered_shape()),
        had_shape && !scratch ==> (r matches FeaturePlan::Shape(v) && v@ == shape@.filter(
            visible_pred(),
        )),
        had_shape && scratch ==> (r matches FeaturePlan::Shape(v) && carve_result_ok(
            v@,
            shape@.filter(visible_pred()),
        )),
{
    if had_shape {
        let culled = cull_polygons(shape);
        if scratch {
            FeaturePlan::Shape(carve_out_from_tile(culled))
        } else {
            FeaturePlan::Shape(culled)
        }
    } else if scratch {
        FeaturePlan::TileRect(TileID::buffered_shape())
    } else {
        FeaturePlan::NoFeature
    }
}

} // verus!
