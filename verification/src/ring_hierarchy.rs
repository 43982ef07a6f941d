//! Nesting of unordered closed rings into a multi-polygon.
//!
//! Rings are sorted by bounding-box area and attached to the smallest
//! already-placed ring whose bounding box contains theirs; depth parity then
//! decides their role.  Every even-depth ring becomes the exterior of a new
//! polygon and its odd-depth children become that polygon's holes.  This is
//! sound only because the callers hand in rings that do not cross, for which
//! bounding-box containment coincides with ring containment.

use vstd::prelude::*;
use crate::geom::{
    bounding_rect, make_cw, rect_of, ring_in_range, ring_ok, signed_area2, spec_make_cw,
    winding_defined, IntRect, PixelCoord, PixelPolygon, Ring,
};

verus! {

/// A collection of closed rings, ready to be nested into a multi-polygon.
pub struct RingHierarchy {
    pub rings: Vec<Ring>,
}

/// Number of `true` entries in the sequence.
spec fn count_true(s: Seq<bool>) -> int
    decreases s.len(),
{
    if s.len() == 0 {
        0
    } else {
        count_true(s.drop_last()) + if s.last() {
            1int
        } else {
            0int
        }
    }
}

proof fn lemma_count_true_bound(s: Seq<bool>)
    ensures
        0 <= count_true(s) <= s.len(),
    decreases s.len(),
{
    if s.len() > 0 {
        lemma_count_true_bound(s.drop_last());
    }
}

proof fn lemma_count_true_update(s: Seq<bool>, k: int)
    requires
        0 <= k < s.len(),
        !s[k],
    ensures
        count_true(s.update(k, true)) == count_true(s) + 1,
    decreases s.len(),
{
    let u = s.update(k, true);
    if k == s.len() - 1 {
        assert(u.drop_last() =~= s.drop_last());
        assert(u.last());
        assert(!s.last());
    } else {
        assert(u.drop_last() =~= s.drop_last().update(k, true));
        assert(u.last() == s.last());
        lemma_count_true_update(s.drop_last(), k);
    }
}

proof fn lemma_count_true_ge_one(s: Seq<bool>, k: int)
    requires
        0 <= k < s.len(),
        s[k],
    ensures
        count_true(s) >= 1,
    decreases s.len(),
{
    lemma_count_true_bound(s.drop_last());
    if k < s.len() - 1 {
        lemma_count_true_ge_one(s.drop_last(), k);
    }
}

/// The first `m` bounding boxes and areas describe the rings exactly.
spec fn boxes_ok(boxes: Seq<IntRect>, areas: Seq<i128>, rings: Seq<Ring>, m: int) -> bool {
    forall|k: int|
        0 <= k < m ==> boxes[k] == rect_of((#[trigger] rings[k])@) && areas[k] as int
            == boxes[k].spec_area()
}

/// A sequence of distinct indices below its own length takes every such
/// value somewhere.
proof fn lemma_order_onto(order: Seq<usize>, j: int)
    requires
        forall|k: int| 0 <= k < order.len() ==> (#[trigger] order[k]) < order.len(),
        forall|k1: int, k2: int| 0 <= k1 < k2 < order.len() ==> order[k1] != order[k2],
        0 <= j < order.len(),
    ensures
        exists|w: int| 0 <= w < order.len() && order[w] == j,
{
    let n = order.len() as int;
    let m = order.map_values(|v: usize| v as int);
    assert forall|k1: int, k2: int| 0 <= k1 < k2 < m.len() implies m[k1] != m[k2] by {
        assert(order[k1] != order[k2]);
    }
    assert(m.no_duplicates());
    m.unique_seq_to_set();
    assert forall|v: int| m.to_set().contains(v) implies 0 <= v < n by {
        let w = choose|w: int| 0 <= w < m.len() && m[w] == v;
        assert(order[w] < order.len());
    }
    assert(m.to_set().subset_of(vstd::set_lib::set_int_range(0, n)));
    vstd::set_lib::lemma_int_range(0, n);
    if !m.to_set().contains(j) {
        m.to_set().lemma_subset_not_in_lt(vstd::set_lib::set_int_range(0, n), j);
        assert(false);
    }
    let w = choose|w: int| 0 <= w < m.len() && m[w] == j;
    assert(order[w] == j);
}

proof fn lemma_count_true_zero(s: Seq<bool>, k: int)
    requires
        count_true(s) == 0,
        0 <= k < s.len(),
    ensures
        !s[k],
    decreases s.len(),
{
    lemma_count_true_bound(s.drop_last());
    if k < s.len() - 1 {
        lemma_count_true_zero(s.drop_last(), k);
    }
}

/// Returns a copy of the ring.
fn copy_ring(s: &Ring) -> (r: Ring)
    ensures
        r@ == s@,
{
    let mut r: Ring = Vec::new();
    let mut i: usize = 0;
    while i < s.len()
        invariant
            0 <= i <= s@.len(),
            r@ == s@.take(i as int),
        decreases s@.len() - i,
    {
        r.push(s[i]);
        proof {
            assert(r@ =~= s@.take(i as int + 1));
        }
        i += 1;
    }
    proof {
        assert(s@.take(s@.len() as int) =~= s@);
    }
    r
}

/// The area of a ring's bounding box, exact.
fn bbox_area(r: &IntRect) -> (a: i128)
    requires
        r.is_normal(),
        -0x2_0000_0000 <= r.min_x <= 0x2_0000_0000,
        -0x2_0000_0000 <= r.max_x <= 0x2_0000_0000,
        -0x2_0000_0000 <= r.min_y <= 0x2_0000_0000,
        -0x2_0000_0000 <= r.max_y <= 0x2_0000_0000,
    ensures
        a as int == r.spec_area(),
        a >= 0,
{
    let w: i128 = (r.max_x as i128) - (r.min_x as i128);
    let h: i128 = (r.max_y as i128) - (r.min_y as i128);
    proof {
        assert(w * h <= 0x4_0000_0000i128 * 0x4_0000_0000i128 && w * h >= 0) by (nonlinear_arith)
            requires
                0 <= w <= 0x4_0000_0000i128,
                0 <= h <= 0x4_0000_0000i128,
        ;
    }
    w * h
}

/// The ring is one of the pool's rings, as given.
pub open spec fn is_pool_ring(r: Seq<PixelCoord>, pool: Seq<Seq<PixelCoord>>) -> bool {
    exists|j: int| 0 <= j < pool.len() && r == pool[j]
}

/// The ring is one of the pool's rings, rewound clockwise.
pub open spec fn is_pool_ring_cw(r: Seq<PixelCoord>, pool: Seq<Seq<PixelCoord>>) -> bool {
    exists|j: int| 0 <= j < pool.len() && r == spec_make_cw(pool[j])
}

/// No other ring of the pool has a bounding box containing ring `j`'s.
pub open spec fn uncontained_in_pool(j: int, pool: Seq<Seq<PixelCoord>>) -> bool {
    &&& 0 <= j < pool.len()
    &&& forall|k: int|
        0 <= k < pool.len() && k != j ==> !rect_of(#[trigger] pool[k]).spec_contains_rect(
            rect_of(pool[j]),
        )
}

/// Some polygon of the output carries this ring, rewound clockwise, as its
/// exterior.
pub open spec fn emitted_as_exterior(r: Seq<PixelCoord>, out: Seq<PixelPolygon>) -> bool {
    exists|m: int| 0 <= m < out.len() && out[m].exterior@ == spec_make_cw(r)
}

/// The ring appears somewhere in the output: as the (rewound) exterior of
/// some polygon, or as one of its holes, unchanged.
pub open spec fn appears_in_output(r: Seq<PixelCoord>, out: Seq<PixelPolygon>) -> bool {
    emitted_as_exterior(r, out) || exists|m: int, l: int|
        0 <= m < out.len() && 0 <= l < out[m].interiors@.len() && (out[m].interiors@[l])@ == r
}

/// In the nesting forest, every ring either went to the exterior queue or is
/// the child of a queued ring, by strong induction along the sort order: a
/// ring with no parent is a queued root; otherwise its parent sits earlier
/// in the order and is, inductively, either queued (making the ring its
/// hole) or a hole itself (making the ring a queued grandchild).
proof fn lemma_queued_or_hole(
    order: Seq<usize>,
    parent: Seq<Option<usize>>,
    queue: Seq<usize>,
    p: int,
)
    requires
        order.len() == parent.len(),
        forall|k: int| 0 <= k < order.len() ==> (#[trigger] order[k]) < order.len(),
        forall|k: int|
            0 <= k < parent.len() && (#[trigger] parent[k]) is Some ==> parent[k]->0
                < parent.len(),
        forall|p2: int|
            0 <= p2 < order.len() && parent[(#[trigger] order[p2]) as int] is Some ==> exists|
                q: int,
            |
                0 <= q < p2 && order[q] == parent[order[p2] as int]->0,
        forall|i: int|
            0 <= i < parent.len() && (#[trigger] parent[i]) is None ==> queue.contains(
                i as usize,
            ),
        forall|g: int|
            0 <= g < parent.len() && (#[trigger] parent[g]) is Some && parent[(parent[g]
                ->0) as int] is Some && queue.contains(parent[(parent[g]->0) as int]->0)
                ==> queue.contains(g as usize),
        0 <= p < order.len(),
    ensures
        queue.contains(order[p]) || (parent[(order[p]) as int] is Some && queue.contains(
            parent[order[p] as int]->0,
        )),
    decreases p,
{
    let i = order[p] as int;
    if parent[i] is Some {
        let q = choose|q: int| 0 <= q < p && order[q] == parent[i]->0;
        lemma_queued_or_hole(order, parent, queue, q);
        if !queue.contains(order[q]) {
            assert(parent[(order[q]) as int] is Some && queue.contains(
                parent[order[q] as int]->0,
            ));
            assert(queue.contains(order[p]));
        }
    }
}

/// No ring of the pool has a wider bounding box than ring `j0`.
pub open spec fn is_widest_pool_ring(j0: int, pool: Seq<Seq<PixelCoord>>) -> bool {
    &&& 0 <= j0 < pool.len()
    &&& forall|j: int|
        0 <= j < pool.len() ==> rect_of(#[trigger] pool[j]).spec_area() <= rect_of(
            pool[j0],
        ).spec_area()
}

impl RingHierarchy {
    /// All stored rings are processable.
    pub open spec fn wf(self) -> bool {
        forall|j: int| 0 <= j < self.rings@.len() ==> ring_ok((#[trigger] self.rings@[j])@)
    }

    /// The rings the hierarchy was built from.
    pub open spec fn spec_rings(self) -> Seq<Seq<PixelCoord>> {
        Seq::new(self.rings@.len(), |j: int| self.rings@[j]@)
    }

    /// Builds a hierarchy over the given closed rings.
    pub fn new(rings: Vec<Ring>) -> (r: RingHierarchy)
        requires
            forall|j: int| 0 <= j < rings@.len() ==> ring_ok((#[trigger] rings@[j])@),
        ensures
            r.wf(),
            r.spec_rings() == Seq::new(rings@.len(), |j: int| rings@[j]@),
    {
        RingHierarchy { rings }
    }

    /// Nests the rings into a multi-polygon.
    ///
    /// Rings are sorted by bounding-box area, largest first; each ring is
    /// attached to the smallest earlier ring whose bounding box contains its
    /// own.  Even-depth rings become polygon exteriors (their winding is
    /// forced clockwise, which a tile renderer, whose `y` axis points down,
    /// displays counter-clockwise); their children become the polygon's
    /// holes, emitted with the winding they arrived with.
    ///
    /// The contract pins the emission both ways: every ring of the result is
    /// one of the given rings, and every given ring reappears in the result;
    /// the first exterior has the widest bounding box of them, and a ring
    /// whose bounding box nothing else contains always surfaces as an
    /// exterior.
    pub fn into_multi_polygon(self) -> (out: Vec<PixelPolygon>)
        requires
            self.wf(),
        ensures
            forall|k: int|
                0 <= k < out@.len() ==> is_pool_ring_cw(
                    (#[trigger] out@[k]).exterior@,
                    self.spec_rings(),
                ),
            forall|k: int, l: int|
                0 <= k < out@.len() && 0 <= l < out@[k].interiors@.len() ==> is_pool_ring(
                    (#[trigger] out@[k].interiors@[l])@,
                    self.spec_rings(),
                ),
            forall|k: int|
                0 <= k < out@.len() && winding_defined((#[trigger] out@[k]).exterior@)
                    ==> signed_area2(out@[k].exterior@) < 0,
            self.rings@.len() == 0 ==> out@.len() == 0,
            self.rings@.len() >= 1 ==> out@.len() >= 1,
            self.rings@.len() >= 1 ==> exists|j0: int|
                is_widest_pool_ring(j0, self.spec_rings()) && out@[0].exterior@ == spec_make_cw(
                    self.spec_rings()[j0],
                ),
            forall|j: int|
                uncontained_in_pool(j, self.spec_rings()) ==> emitted_as_exterior(
                    self.spec_rings()[j],
                    out@,
                ),
            forall|j: int|
                0 <= j < self.spec_rings().len() ==> appears_in_output(
                    #[trigger] self.spec_rings()[j],
                    out@,
                ),
    {
        let ghost orig = self.spec_rings();
        let rings = self.rings;
        let n: usize = rings.len();
        if n == 0 {
            let out: Vec<PixelPolygon> = Vec::new();
            return out;
        }
        // Bounding boxes and their areas.
        let mut boxes: Vec<IntRect> = Vec::new();
        let mut areas: Vec<i128> = Vec::new();
        let mut j: usize = 0;
        while j < n
            invariant
                0 <= j <= n,
                n == rings@.len(),
                forall|k: int| 0 <= k < n ==> ring_ok((#[trigger] rings@[k])@),
                boxes@.len() == j,
                areas@.len() == j,
                boxes_ok(boxes@, areas@, rings@, j as int),
            decreases n - j,
        {
            let bx = bounding_rect(&rings[j]);
            proof {
                let s = rings@[j as int]@;
                assert(ring_in_range(s));
                let wi = choose|i: int| 0 <= i < s.len() && s[i].x == bx.min_x;
                let wa = choose|i: int| 0 <= i < s.len() && s[i].x == bx.max_x;
                let wb = choose|i: int| 0 <= i < s.len() && s[i].y == bx.min_y;
                let wc = choose|i: int| 0 <= i < s.len() && s[i].y == bx.max_y;
                assert(s[wi].in_range() && s[wa].in_range() && s[wb].in_range()
                    && s[wc].in_range());
            }
            let a = bbox_area(&bx);
            let ghost boxes_before = boxes@;
            let ghost areas_before = areas@;
            boxes.push(bx);
            areas.push(a);
            proof {
                assert forall|k: int|
                    0 <= k < j + 1 implies boxes@[k] == rect_of((#[trigger] rings@[k])@)
                        && areas@[k] as int == boxes@[k].spec_area() by {
                    if k < j {
                        assert(boxes@[k] == boxes_before[k]);
                        assert(areas@[k] == areas_before[k]);
                        assert(boxes_before[k] == rect_of(rings@[k]@));
                        assert(areas_before[k] as int == boxes_before[k].spec_area());
                    } else {
                        assert(k == j as int);
                        assert(bx == rect_of(rings@[j as int]@));
                        assert(a as int == bx.spec_area());
                        assert(boxes@[k] == bx);
                        assert(areas@[k] == a);
                    }
                }
                assert(boxes_ok(boxes@, areas@, rings@, j + 1));
            }
            j += 1;
        }
        // Ring indices, sorted by bounding-box area, largest first; the sort
        // is stable, so rings with equal areas keep their input order.
        let mut order: Vec<usize> = Vec::new();
        let mut j: usize = 0;
        while j < n
            invariant
                0 <= j <= n,
                order@.len() == j,
                forall|k: int| 0 <= k < j ==> order@[k] == k,
            decreases n - j,
        {
            order.push(j);
            j += 1;
        }
        let mut si: usize = 1;
        while si < n
            invariant
                1 <= si <= n,
                n == areas@.len(),
                order@.len() == n,
                forall|k: int| 0 <= k < n ==> (#[trigger] order@[k]) < n,
                forall|k1: int, k2: int| 0 <= k1 < k2 < n ==> order@[k1] != order@[k2],
                forall|k: int|
                    0 <= k < si ==> areas@[(#[trigger] order@[k]) as int] <= areas@[order@[0] as int],
            decreases n - si,
        {
            let mut sj: usize = si;
            let mut moving: bool = true;
            while moving && sj > 0
                invariant
                    0 <= sj <= si < n,
                    n == areas@.len(),
                    order@.len() == n,
                    forall|k: int| 0 <= k < n ==> (#[trigger] order@[k]) < n,
                    forall|k1: int, k2: int| 0 <= k1 < k2 < n ==> order@[k1] != order@[k2],
                    sj >= 1 ==> forall|k: int|
                        0 <= k <= si && k != sj ==> areas@[(#[trigger] order@[k]) as int]
                            <= areas@[order@[0] as int],
                    sj == 0 ==> forall|k: int|
                        0 <= k <= si ==> areas@[(#[trigger] order@[k]) as int] <= areas@[order@[0] as int],
                    !moving ==> sj >= 1 && areas@[order@[sj as int] as int] <= areas@[order@[sj
                        - 1] as int],
                decreases sj + if moving { 1int } else { 0int },
            {
                let prev: usize = order[sj - 1];
                let cur: usize = order[sj];
                if areas[prev] < areas[cur] {
                    order.set(sj - 1, cur);
                    order.set(sj, prev);
                    sj -= 1;
                } else {
                    moving = false;
                }
            }
            proof {
                if sj >= 1 {
                    assert(areas@[order@[sj as int] as int] <= areas@[order@[sj - 1] as int]);
                    assert(areas@[order@[sj - 1] as int] <= areas@[order@[0] as int]);
                }
                assert(forall|k: int|
                    0 <= k <= si ==> areas@[(#[trigger] order@[k]) as int] <= areas@[order@[0] as int]);
            }
            si += 1;
        }
        // Attach each ring to the smallest earlier (hence no smaller) ring
        // whose bounding box contains its own.
        let mut parent: Vec<Option<usize>> = Vec::new();
        let mut j: usize = 0;
        while j < n
            invariant
                0 <= j <= n,
                parent@.len() == j,
                forall|k: int| 0 <= k < j ==> (#[trigger] parent@[k]) is None,
            decreases n - j,
        {
            parent.push(None);
            j += 1;
        }
        let mut si: usize = 0;
        while si < n
            invariant
                0 <= si <= n,
                n == boxes@.len(),
                n == rings@.len(),
                order@.len() == n,
                parent@.len() == n,
                boxes_ok(boxes@, areas@, rings@, n as int),
                forall|k: int| 0 <= k < n ==> (#[trigger] order@[k]) < n,
                forall|k1: int, k2: int| 0 <= k1 < k2 < n ==> order@[k1] != order@[k2],
                forall|k: int|
                    0 <= k < n && (#[trigger] parent@[k]) is Some ==> parent@[k]->0 < n,
                forall|k: int|
                    0 <= k < n && (#[trigger] parent@[k]) is Some ==> parent@[k]->0 != k
                        && rect_of(rings@[parent@[k]->0 as int]@).spec_contains_rect(
                        rect_of(rings@[k]@),
                    ),
                forall|p2: int|
                    0 <= p2 < n && parent@[(#[trigger] order@[p2]) as int] is Some ==> exists|
                        q: int,
                    |
                        0 <= q < p2 && order@[q] == parent@[order@[p2] as int]->0,
                forall|p2: int|
                    si <= p2 < n ==> parent@[(#[trigger] order@[p2]) as int] is None,
                parent@[order@[0] as int] is None,
            decreases n - si,
        {
            let i: usize = order[si];
            if si > 0 {
                let mut found: Option<usize> = None;
                let mut sj: usize = si;
                while sj > 0 && found.is_none()
                    invariant
                        0 <= sj <= si,
                        si < n,
                        i < n,
                        i == order@[si as int],
                        n == boxes@.len(),
                        n == rings@.len(),
                        order@.len() == n,
                        boxes_ok(boxes@, areas@, rings@, n as int),
                        forall|k: int| 0 <= k < n ==> (#[trigger] order@[k]) < n,
                        forall|k1: int, k2: int| 0 <= k1 < k2 < n ==> order@[k1] != order@[k2],
                        found is Some ==> found->0 < n && found->0 != i && rect_of(
                            rings@[found->0 as int]@,
                        ).spec_contains_rect(rect_of(rings@[i as int]@)),
                        found is Some ==> exists|q: int|
                            0 <= q < si && order@[q] == found->0,
                    decreases sj,
                {
                    let cand: usize = order[sj - 1];
                    if boxes[cand].contains_rect(&boxes[i]) {
                        found = Some(cand);
                        proof {
                            assert(cand == order@[sj - 1] && i == order@[si as int]);
                            assert(order@[sj - 1] != order@[si as int]);
                        }
                    }
                    sj -= 1;
                }
                if let Some(p) = found {
                    let ghost parent_before = parent@;
                    parent.set(i, Some(p));
                    proof {
                        assert(order@[si as int] != order@[0]);
                        assert forall|p2: int|
                            0 <= p2 < n && parent@[(#[trigger] order@[p2]) as int] is Some
                            implies exists|q: int|
                            0 <= q < p2 && order@[q] == parent@[order@[p2] as int]->0 by {
                            if order@[p2] == i {
                                assert(p2 == si as int);
                                assert(parent@[i as int] == Some(p));
                                let q0 = choose|q: int| 0 <= q < si && order@[q] == p;
                                assert(0 <= q0 < p2 && order@[q0] == parent@[order@[p2] as int]
                                    ->0);
                            } else {
                                assert(parent@[(order@[p2]) as int] == parent_before[(
                                order@[p2]) as int]);
                            }
                        }
                    }
                }
            }
            si += 1;
        }
        // Emit: walk the forest breadth-first from the roots; every ring
        // taken as an exterior brings its children along as holes and hands
        // its grandchildren back to the queue as new exteriors.
        let mut used: Vec<bool> = Vec::new();
        let mut j: usize = 0;
        while j < n
            invariant
                0 <= j <= n,
                used@.len() == j,
                count_true(used@) == 0,
            decreases n - j,
        {
            proof {
                assert(used@.push(false).drop_last() =~= used@);
            }
            used.push(false);
            j += 1;
        }
        let mut queue: Vec<usize> = Vec::new();
        let mut si: usize = 0;
        proof {
            assert forall|k2: int| 0 <= k2 < n && used@[k2] implies queue@.contains(
                k2 as usize,
            ) by {
                lemma_count_true_zero(used@, k2);
            }
        }
        while si < n
            invariant
                0 <= si <= n,
                n == rings@.len(),
                used@.len() == n,
                order@.len() == n,
                parent@.len() == n,
                forall|k: int| 0 <= k < n ==> (#[trigger] order@[k]) < n,
                queue@.len() == count_true(used@),
                forall|k: int| 0 <= k < queue@.len() ==> (#[trigger] queue@[k]) < n,
                parent@[order@[0] as int] is None,
                si >= 1 ==> queue@.len() >= 1 && queue@[0] == order@[0],
                si == 0 ==> count_true(used@) == 0,
                forall|p2: int|
                    0 <= p2 < n && parent@[(#[trigger] order@[p2]) as int] is Some ==> exists|
                        q: int,
                    |
                        0 <= q < p2 && order@[q] == parent@[order@[p2] as int]->0,
                forall|k2: int| 0 <= k2 < n && used@[k2] ==> queue@.contains(k2 as usize),

                forall|p: int|
                    0 <= p < si && parent@[(#[trigger] order@[p]) as int] is None
                        ==> used@[order@[p] as int],
            decreases n - si,
        {
            let i: usize = order[si];
            proof {
                if si == 0 {
                    lemma_count_true_zero(used@, i as int);
                }
            }
            let ghost used_before = used@;
            let ghost queue_before = queue@;
            if parent[i].is_none() {
                if !used[i] {
                    proof {
                        lemma_count_true_update(used@, i as int);
                    }
                    used.set(i, true);
                    queue.push(i);
                    proof {
                        assert forall|k2: int|
                            0 <= k2 < n && used@[k2] implies queue@.contains(k2 as usize) by {
                            if k2 != i {
                                assert(used_before[k2]);
                                let w = choose|w: int|
                                    0 <= w < queue_before.len() && queue_before[w] == k2 as usize;
                                assert(queue@[w] == k2 as usize);
                            } else {
                                assert(queue@[queue@.len() - 1] == i);
                            }
                        }
                    }
                } else {
                    proof {
                        lemma_count_true_ge_one(used@, i as int);
                    }
                }
            }
            si += 1;
        }
        proof {
            assert forall|i2: int|
                0 <= i2 < n && parent@[i2] is None implies queue@.contains(i2 as usize) by {
                lemma_order_onto(order@, i2);
                let w = choose|w: int| 0 <= w < order@.len() && order@[w] == i2;
                assert(parent@[(order@[w]) as int] is None);
                assert(used@[order@[w] as int]);
            }
        }
        let mut out: Vec<PixelPolygon> = Vec::new();
        let mut qi: usize = 0;
        while qi < queue.len()
            invariant
                n == rings@.len(),
                orig == Seq::new(rings@.len() as nat, |k: int| rings@[k]@),
                forall|k: int| 0 <= k < n ==> ring_ok((#[trigger] rings@[k])@),
                used@.len() == n,
                order@.len() == n,
                parent@.len() == n,
                forall|k: int| 0 <= k < n ==> (#[trigger] order@[k]) < n,
                forall|k: int|
                    0 <= k < n && (#[trigger] parent@[k]) is Some ==> parent@[k]->0 < n,
                queue@.len() == count_true(used@),
                forall|k: int| 0 <= k < queue@.len() ==> (#[trigger] queue@[k]) < n,
                0 <= qi <= queue@.len(),
                out@.len() == qi,
                forall|k: int|
                    0 <= k < out@.len() ==> is_pool_ring_cw((#[trigger] out@[k]).exterior@, orig),
                forall|k: int, l: int|
                    0 <= k < out@.len() && 0 <= l < out@[k].interiors@.len() ==> is_pool_ring(
                        (#[trigger] out@[k].interiors@[l])@,
                        orig,
                    ),
                forall|k: int|
                    0 <= k < out@.len() && winding_defined((#[trigger] out@[k]).exterior@)
                        ==> signed_area2(out@[k].exterior@) < 0,
                queue@.len() >= 1,
                queue@[0] == order@[0],
                boxes_ok(boxes@, areas@, rings@, n as int),
                n == areas@.len() && n == boxes@.len(),
                forall|k: int|
                    0 <= k < n ==> areas@[(#[trigger] order@[k]) as int] <= areas@[order@[0] as int],
                qi >= 1 ==> out@[0].exterior@ == spec_make_cw(orig[order@[0] as int]),
                forall|k: int|
                    0 <= k < n && (#[trigger] parent@[k]) is Some ==> parent@[k]->0 != k
                        && rect_of(rings@[parent@[k]->0 as int]@).spec_contains_rect(
                        rect_of(rings@[k]@),
                    ),
                forall|i2: int|
                    0 <= i2 < n && (#[trigger] parent@[i2]) is None ==> queue@.contains(
                        i2 as usize,
                    ),
                forall|c: int|
                    0 <= c < out@.len() ==> (#[trigger] out@[c]).exterior@ == spec_make_cw(
                        orig[queue@[c] as int],
                    ),
                forall|p2: int|
                    0 <= p2 < n && parent@[(#[trigger] order@[p2]) as int] is Some ==> exists|
                        q: int,
                    |
                        0 <= q < p2 && order@[q] == parent@[order@[p2] as int]->0,
                forall|k2: int| 0 <= k2 < n && used@[k2] ==> queue@.contains(k2 as usize),
                forall|k1: int, k2: int| 0 <= k1 < k2 < n ==> order@[k1] != order@[k2],
                forall|g: int, c: int|
                    #![trigger parent@[g], queue@[c]]
                    0 <= g < n && 0 <= c < qi && parent@[g] is Some && parent@[(parent@[g]
                        ->0) as int] == Some(queue@[c]) ==> queue@.contains(g as usize),
                forall|g: int, c: int|
                    #![trigger parent@[g], queue@[c]]
                    0 <= g < n && 0 <= c < qi && parent@[g] == Some(queue@[c]) ==> exists|l: int|
                        0 <= l < out@[c].interiors@.len() && (out@[c].interiors@[l])@ == orig[g],
            decreases n - qi,
        {
            proof {
                lemma_count_true_bound(used@);
            }
            let e: usize = queue[qi];
            let base = copy_ring(&rings[e]);
            let ghost base_seq = rings@[e as int]@;
            let ext = make_cw(base);
            proof {
                assert(spec_make_cw(base_seq) == ext@);
                if winding_defined(ext@) {
                    if !winding_defined(base_seq) {
                        assert(ext@ == base_seq);
                    }
                }
            }
            let mut holes: Vec<Ring> = Vec::new();
            let mut si: usize = 0;
            while si < n
                invariant
                    n == rings@.len(),
                    orig == Seq::new(rings@.len() as nat, |k: int| rings@[k]@),
                    forall|k: int| 0 <= k < n ==> ring_ok((#[trigger] rings@[k])@),
                    used@.len() == n,
                    order@.len() == n,
                    parent@.len() == n,
                    e < n,
                    forall|k: int| 0 <= k < n ==> (#[trigger] order@[k]) < n,
                    forall|k: int|
                        0 <= k < n && (#[trigger] parent@[k]) is Some ==> parent@[k]->0 < n,
                    queue@.len() == count_true(used@),
                    forall|k: int| 0 <= k < queue@.len() ==> (#[trigger] queue@[k]) < n,
                    qi < queue@.len(),
                    queue@[0] == order@[0],
                    queue@[qi as int] == e,
                    0 <= si <= n,
                    forall|k2: int| 0 <= k2 < n && used@[k2] ==> queue@.contains(k2 as usize),
                    forall|p2: int|
                        0 <= p2 < n && parent@[(#[trigger] order@[p2]) as int] is Some ==> exists|
                            q: int,
                        |
                            0 <= q < p2 && order@[q] == parent@[order@[p2] as int]->0,
                    forall|k: int|
                        0 <= k < n && (#[trigger] parent@[k]) is Some ==> parent@[k]->0 != k,
                    forall|k1: int, k2: int| 0 <= k1 < k2 < n ==> order@[k1] != order@[k2],
                    forall|l: int|
                        0 <= l < holes@.len() ==> is_pool_ring((#[trigger] holes@[l])@, orig),
                    forall|p2: int|
                        0 <= p2 < si && parent@[(#[trigger] order@[p2]) as int] is Some
                            && parent@[(parent@[order@[p2] as int]->0) as int] == Some(e)
                            ==> queue@.contains(order@[p2]),
                    forall|p2: int|
                        0 <= p2 < si && parent@[(#[trigger] order@[p2]) as int] == Some(e)
                            ==> exists|l: int|
                            0 <= l < holes@.len() && (holes@[l])@ == orig[(order@[p2]) as int],
                    forall|g: int, c: int|
                        #![trigger parent@[g], queue@[c]]
                        0 <= g < n && 0 <= c < qi && parent@[g] is Some && parent@[(parent@[g]
                            ->0) as int] == Some(queue@[c]) ==> queue@.contains(g as usize),
                    forall|g: int, c: int|
                        #![trigger parent@[g], queue@[c]]
                        0 <= g < n && 0 <= c < qi && parent@[g] == Some(queue@[c]) ==> exists|
                            l: int,
                        |
                            0 <= l < out@[c].interiors@.len() && (out@[c].interiors@[l])@
                                == orig[g],
                    forall|i2: int|
                        0 <= i2 < n && (#[trigger] parent@[i2]) is None ==> queue@.contains(
                            i2 as usize,
                        ),
                    out@.len() == qi,
                    forall|c: int|
                        0 <= c < out@.len() ==> (#[trigger] out@[c]).exterior@ == spec_make_cw(
                            orig[queue@[c] as int],
                        ),
                decreases n - si,
            {
                let h: usize = order[si];
                let ph: Option<usize> = parent[h];
                match ph {
                    Some(p) => {
                        if p == e {
                            // A child of the exterior: one of its holes.
                            let ghost holes_before = holes@;
                            holes.push(copy_ring(&rings[h]));
                            proof {
                                assert((holes@[holes@.len() - 1])@ == orig[h as int]);
                                assert forall|l: int| 0 <= l < holes@.len() implies is_pool_ring(
                                    (#[trigger] holes@[l])@,
                                    orig,
                                ) by {
                                    if l < holes@.len() - 1 {
                                        assert(holes@[l] == holes_before[l]);
                                    } else {
                                        assert(0 <= h < orig.len());
                                        assert(((holes@[l])@) == orig[h as int]);
                                    }
                                }
                                assert forall|p2: int|
                                    0 <= p2 < si + 1 && parent@[(#[trigger] order@[p2]) as int]
                                        == Some(e) implies exists|l: int|
                                    0 <= l < holes@.len() && (holes@[l])@ == orig[(
                                    order@[p2]) as int] by {
                                    if p2 < si {
                                        let l0 = choose|l: int|
                                            0 <= l < holes_before.len() && (holes_before[l])@
                                                == orig[(order@[p2]) as int];
                                        assert((holes@[l0])@ == orig[(order@[p2]) as int]);
                                    } else {
                                        assert(order@[p2] == h);
                                        assert((holes@[holes@.len() - 1])@ == orig[h as int]);
                                    }
                                }
                                assert(parent@[e as int] is Some ==> parent@[e as int]->0 != e);
                            }
                        } else {
                            // A grandchild of the exterior starts a polygon
                            // of its own.
                            let pp: Option<usize> = parent[p];
                            match pp {
                                Some(p2) => {
                                    if p2 == e && !used[h] {
                                        let ghost queue_pre = queue@;
                                        let ghost used_pre = used@;
                                        proof {
                                            lemma_count_true_update(used@, h as int);
                                        }
                                        used.set(h, true);
                                        queue.push(h);
                                        proof {
                                            assert forall|k2: int|
                                                0 <= k2 < n && used@[k2] implies queue@.contains(
                                                k2 as usize,
                                            ) by {
                                                if k2 != h {
                                                    assert(used_pre[k2]);
                                                    let w = choose|w: int|
                                                        0 <= w < queue_pre.len() && queue_pre[w]
                                                            == k2 as usize;
                                                    assert(queue@[w] == k2 as usize);
                                                } else {
                                                    assert(queue@[queue@.len() - 1] == h);
                                                }
                                            }
                                            assert forall|i2: int|
                                                0 <= i2 < n && (#[trigger] parent@[i2]) is None
                                                implies queue@.contains(i2 as usize) by {
                                                let w = choose|w: int|
                                                    0 <= w < queue_pre.len() && queue_pre[w] == i2
                                                        as usize;
                                                assert(queue@[w] == i2 as usize);
                                            }
                                            assert forall|c: int|
                                                0 <= c < out@.len() implies (
                                            #[trigger] out@[c]).exterior@ == spec_make_cw(
                                                orig[queue@[c] as int],
                                            ) by {
                                                assert(queue@[c] == queue_pre[c]);
                                            }
                                            assert(queue@[qi as int] == queue_pre[qi as int]);
                                            assert forall|p3: int|
                                                0 <= p3 < si + 1 && parent@[(
                                            #[trigger] order@[p3]) as int] is Some && parent@[(
                                            parent@[order@[p3] as int]->0) as int] == Some(e)
                                                implies queue@.contains(order@[p3]) by {
                                                if p3 < si {
                                                    let w = choose|w: int|
                                                        0 <= w < queue_pre.len() && queue_pre[w]
                                                            == order@[p3];
                                                    assert(queue@[w] == order@[p3]);
                                                } else {
                                                    assert(order@[p3] == h);
                                                    assert(queue@[queue@.len() - 1] == h);
                                                }
                                            }
                                            assert forall|g: int, c: int|
                                                #![trigger parent@[g], queue@[c]]
                                                0 <= g < n && 0 <= c < qi && parent@[g] is Some
                                                    && parent@[(parent@[g]->0) as int] == Some(
                                                queue@[c]) implies queue@.contains(g as usize) by {
                                                assert(queue@[c] == queue_pre[c]);
                                                let w = choose|w: int|
                                                    0 <= w < queue_pre.len() && queue_pre[w] == g
                                                        as usize;
                                                assert(queue@[w] == g as usize);
                                            }
                                        }
                                    }
                                },
                                None => {},
                            }
                        }
                    },
                    None => {},
                }
                si += 1;
            }
            let ghost holes_view = holes@;
            let ghost out_before = out@;
            proof {
                // Every position was scanned: state the per-exterior facts
                // over ring indices.
                assert forall|g: int|
                    0 <= g < n && parent@[g] is Some && parent@[(parent@[g]->0) as int] == Some(e)
                    implies queue@.contains(g as usize) by {
                    lemma_order_onto(order@, g);
                    let p2 = choose|p2: int| 0 <= p2 < order@.len() && order@[p2] == g as usize;
                    assert(parent@[(order@[p2]) as int] is Some && parent@[(parent@[order@[p2]
                        as int]->0) as int] == Some(e));
                }
                assert forall|g: int|
                    0 <= g < n && parent@[g] == Some(e) implies exists|l: int|
                    0 <= l < holes_view.len() && (holes_view[l])@ == orig[g] by {
                    lemma_order_onto(order@, g);
                    let p2 = choose|p2: int| 0 <= p2 < order@.len() && order@[p2] == g as usize;
                    assert(parent@[(order@[p2]) as int] == Some(e));
                }
            }
            out.push(PixelPolygon { exterior: ext, interiors: holes });
            proof {
                assert forall|g: int, c: int|
                    #![trigger parent@[g], queue@[c]]
                    0 <= g < n && 0 <= c < qi + 1 && parent@[g] is Some && parent@[(parent@[g]
                        ->0) as int] == Some(queue@[c]) implies queue@.contains(g as usize) by {
                    if c == qi {
                        assert(queue@[c] == e);
                    }
                }
                assert forall|g: int, c: int|
                    #![trigger parent@[g], queue@[c]]
                    0 <= g < n && 0 <= c < qi + 1 && parent@[g] == Some(queue@[c]) implies exists|
                        l: int,
                    |
                        0 <= l < out@[c].interiors@.len() && (out@[c].interiors@[l])@ == orig[g] by {
                    if c < qi {
                        assert(out@[c] == out_before[c]);
                    } else {
                        assert(queue@[c] == e);
                        assert(out@[c].interiors@ == holes_view);
                    }
                }
            }
            proof {
                let last = out@.len() - 1;
                assert(out@[last].exterior@ == spec_make_cw(orig[e as int]));
                if qi == 0 {
                    assert(e == order@[0]);
                    assert(out@[0].exterior@ == spec_make_cw(orig[order@[0] as int]));
                }
                assert forall|c: int|
                    0 <= c < out@.len() implies (#[trigger] out@[c]).exterior@ == spec_make_cw(
                    orig[queue@[c] as int],
                ) by {
                    if c < last {
                        assert(out@[c] == out_before[c]);
                    } else {
                        assert(out@[c].exterior@ == ext@ && queue@[c] == e);
                    }
                }
                assert(out@[last].interiors@ == holes_view);
                assert forall|k: int| 0 <= k < out@.len() implies is_pool_ring_cw(
                    (#[trigger] out@[k]).exterior@,
                    orig,
                ) by {
                    if k < last {
                        assert(out@[k] == out_before[k]);
                    } else {
                        assert(0 <= e < orig.len() && out@[k].exterior@ == spec_make_cw(
                            orig[e as int],
                        ));
                    }
                }
                assert forall|k: int, l: int|
                    0 <= k < out@.len() && 0 <= l < out@[k].interiors@.len() implies is_pool_ring(
                    (#[trigger] out@[k].interiors@[l])@,
                    orig,
                ) by {
                    if k < last {
                        assert(out@[k] == out_before[k]);
                    } else {
                        assert(out@[k].interiors@ == holes_view);
                        assert(is_pool_ring((holes_view[l])@, orig));
                    }
                }
            }
            qi += 1;
        }
        proof {
            let j0 = order@[0] as int;
            assert(out@[0].exterior@ == spec_make_cw(orig[j0]));
            assert forall|j: int|
                0 <= j < orig.len() implies rect_of(#[trigger] orig[j]).spec_area() <= rect_of(
                orig[j0],
            ).spec_area() by {
                lemma_order_onto(order@, j);
                let w = choose|w: int| 0 <= w < order@.len() && order@[w] == j;
                assert(areas@[(order@[w]) as int] <= areas@[order@[0] as int]);
                assert(boxes@[j] == rect_of(rings@[j]@));
                assert(areas@[j] as int == boxes@[j].spec_area());
                assert(boxes@[j0] == rect_of(rings@[j0]@));
                assert(areas@[j0] as int == boxes@[j0].spec_area());
            }
            assert(is_widest_pool_ring(j0, orig));
            assert forall|j: int| uncontained_in_pool(j, orig) implies emitted_as_exterior(
                orig[j],
                out@,
            ) by {
                // A ring nothing contains never gets a parent: its parent
                // would be a distinct containing ring.
                if parent@[j] is Some {
                    let pj = parent@[j]->0 as int;
                    assert(rect_of(rings@[pj]@).spec_contains_rect(rect_of(rings@[j]@)));
                    assert(orig[pj] == rings@[pj]@ && orig[j] == rings@[j]@);
                    assert(!rect_of(orig[pj]).spec_contains_rect(rect_of(orig[j])));
                    assert(false);
                }
                assert(queue@.contains(j as usize));
                let c = choose|c: int| 0 <= c < queue@.len() && queue@[c] == j as usize;
                assert(out@[c].exterior@ == spec_make_cw(orig[queue@[c] as int]));
                assert(out@[c].exterior@ == spec_make_cw(orig[j]));
            }
            assert forall|j: int| 0 <= j < orig.len() implies appears_in_output(
                #[trigger] orig[j],
                out@,
            ) by {
                lemma_order_onto(order@, j);
                let p = choose|p: int| 0 <= p < order@.len() && order@[p] == j as usize;
                lemma_queued_or_hole(order@, parent@, queue@, p);
                if queue@.contains(order@[p]) {
                    let c = choose|c: int| 0 <= c < queue@.len() && queue@[c] == j as usize;
                    assert(out@[c].exterior@ == spec_make_cw(orig[queue@[c] as int]));
                    assert(out@[c].exterior@ == spec_make_cw(orig[j]));
                } else {
                    let e2 = parent@[j]->0;
                    assert(queue@.contains(e2));
                    let c = choose|c: int| 0 <= c < queue@.len() && queue@[c] == e2;
                    assert(parent@[j] == Some(queue@[c]));
                    let l = choose|l: int|
                        0 <= l < out@[c].interiors@.len() && (out@[c].interiors@[l])@ == orig[j];
                    assert(0 <= c < out@.len() && 0 <= l < out@[c].interiors@.len() && (
                    out@[c].interiors@[l])@ == orig[j]);
                }
            }
        }
        out
    }
}

} // verus!

