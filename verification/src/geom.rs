//! Integer geometry in tile-local pixel space.
//!
//! After reprojection every vertex of a rendered shape has integer pixel
//! coordinates (the projection truncates toward zero, as the MVT format
//! demands), so the renderer's own geometry — culling, ring nesting and the
//! scratch carve-out — is exact integer arithmetic.

use vstd::prelude::*;

verus! {

/// Largest coordinate magnitude the pixel-space logic accepts.
///
/// Reprojected vertices fit in `i32`; the slack above that absorbs the
/// one-pixel expansions performed by the carve-out.
pub const COORD_LIMIT: i64 = 0x2_0000_0000;

/// Largest ring length the pixel-space logic accepts.
pub const RING_LIMIT: usize = 0x1000_0000;

/// A point in tile-local pixel space.
#[derive(Debug, Clone, Copy, PartialEq, Eq, Structural)]
pub struct PixelCoord {
    pub x: i64,
    pub y: i64,
}

/// An axis-aligned rectangle in tile-local pixel space.
#[derive(Debug, Clone, Copy, PartialEq, Eq, Structural)]
pub struct IntRect {
    pub min_x: i64,
    pub min_y: i64,
    pub max_x: i64,
    pub max_y: i64,
}

/// A closed ring of pixel coordinates.
///
/// The last vertex may repeat the first; the closing edge is implicit either
/// way, as it is for the rings of a polygon in common geometry libraries.
pub type Ring = Vec<PixelCoord>;

/// A polygon in tile-local pixel space: one exterior ring and any number of
/// interior rings (holes).
#[derive(Debug, Clone, PartialEq, Eq)]
pub struct PixelPolygon {
    pub exterior: Ring,
    pub interiors: Vec<Ring>,
}

impl PixelCoord {
    /// True when both coordinates are small enough for exact arithmetic.
    pub open spec fn in_range(self) -> bool {
        &&& -COORD_LIMIT <= self.x <= COORD_LIMIT
        &&& -COORD_LIMIT <= self.y <= COORD_LIMIT
    }
}

/// All coordinates of the ring are in range.
pub open spec fn ring_in_range(s: Seq<PixelCoord>) -> bool {
    forall|i: int| 0 <= i < s.len() ==> (#[trigger] s[i]).in_range()
}

/// A ring the pixel-space logic can process: non-empty, not absurdly long,
/// and with all coordinates in range.
pub open spec fn ring_ok(s: Seq<PixelCoord>) -> bool {
    &&& 1 <= s.len() <= RING_LIMIT
    &&& ring_in_range(s)
}

impl IntRect {
    /// A rectangle is stored with its corners in normal order.
    pub open spec fn is_normal(self) -> bool {
        self.min_x <= self.max_x && self.min_y <= self.max_y
    }

    /// True when the two (closed) rectangles share at least one point.
    pub open spec fn spec_intersects(self, other: IntRect) -> bool {
        &&& self.max_x >= other.min_x
        &&& self.max_y >= other.min_y
        &&& self.min_x <= other.max_x
        &&& self.min_y <= other.max_y
    }

    /// True when `other` lies within `self` (not necessarily strictly).
    pub open spec fn spec_contains_rect(self, other: IntRect) -> bool {
        &&& self.min_x <= other.min_x
        &&& self.min_y <= other.min_y
        &&& self.max_x >= other.max_x
        &&& self.max_y >= other.max_y
    }

    /// The area of the rectangle, exact.
    pub open spec fn spec_area(self) -> int {
        (self.max_x - self.min_x) * (self.max_y - self.min_y)
    }

    /// Builds the rectangle with the given opposite corners, swapping
    /// coordinates if needed so that min and max are in normal order.
    pub fn new(a: PixelCoord, b: PixelCoord) -> (r: IntRect)
        ensures
            r.min_x == if a.x <= b.x { a.x } else { b.x },
            r.max_x == if a.x <= b.x { b.x } else { a.x },
            r.min_y == if a.y <= b.y { a.y } else { b.y },
            r.max_y == if a.y <= b.y { b.y } else { a.y },
            r.is_normal(),
    {
        let (min_x, max_x) = if a.x <= b.x { (a.x, b.x) } else { (b.x, a.x) };
        let (min_y, max_y) = if a.y <= b.y { (a.y, b.y) } else { (b.y, a.y) };
        IntRect { min_x, min_y, max_x, max_y }
    }

    /// True when the two (closed) rectangles share at least one point.
    pub fn intersects(&self, other: &IntRect) -> (r: bool)
        ensures
            r == self.spec_intersects(*other),
    {
        self.max_x >= other.min_x && self.max_y >= other.min_y && self.min_x <= other.max_x
            && self.min_y <= other.max_y
    }

    /// True when `other` lies within `self` (not necessarily strictly).
    pub fn contains_rect(&self, other: &IntRect) -> (r: bool)
        ensures
            r == self.spec_contains_rect(*other),
    {
        self.min_x <= other.min_x && self.min_y <= other.min_y && self.max_x >= other.max_x
            && self.max_y >= other.max_y
    }
}

/// The bounding rectangle of the ring's coordinates.
pub open spec fn is_bounding_rect(r: IntRect, s: Seq<PixelCoord>) -> bool {
    &&& (forall|i: int| 0 <= i < s.len() ==> r.min_x <= (#[trigger] s[i]).x <= r.max_x)
    &&& (forall|i: int| 0 <= i < s.len() ==> r.min_y <= (#[trigger] s[i]).y <= r.max_y)
    &&& (exists|i: int| 0 <= i < s.len() && (#[trigger] s[i]).x == r.min_x)
    &&& (exists|i: int| 0 <= i < s.len() && (#[trigger] s[i]).x == r.max_x)
    &&& (exists|i: int| 0 <= i < s.len() && (#[trigger] s[i]).y == r.min_y)
    &&& (exists|i: int| 0 <= i < s.len() && (#[trigger] s[i]).y == r.max_y)
}

/// Smallest `x` coordinate of a non-empty sequence.
pub open spec fn spec_min_x(s: Seq<PixelCoord>) -> int
    decreases s.len(),
{
    if s.len() <= 1 {
        s[0].x as int
    } else if s.last().x < spec_min_x(s.drop_last()) {
        s.last().x as int
    } else {
        spec_min_x(s.drop_last())
    }
}

/// Largest `x` coordinate of a non-empty sequence.
pub open spec fn spec_max_x(s: Seq<PixelCoord>) -> int
    decreases s.len(),
{
    if s.len() <= 1 {
        s[0].x as int
    } else if s.last().x > spec_max_x(s.drop_last()) {
        s.last().x as int
    } else {
        spec_max_x(s.drop_last())
    }
}

/// Smallest `y` coordinate of a non-empty sequence.
pub open spec fn spec_min_y(s: Seq<PixelCoord>) -> int
    decreases s.len(),
{
    if s.len() <= 1 {
        s[0].y as int
    } else if s.last().y < spec_min_y(s.drop_last()) {
        s.last().y as int
    } else {
        spec_min_y(s.drop_last())
    }
}

/// Largest `y` coordinate of a non-empty sequence.
pub open spec fn spec_max_y(s: Seq<PixelCoord>) -> int
    decreases s.len(),
{
    if s.len() <= 1 {
        s[0].y as int
    } else if s.last().y > spec_max_y(s.drop_last()) {
        s.last().y as int
    } else {
        spec_max_y(s.drop_last())
    }
}

/// The bounding rectangle of a non-empty ring, as a function of the ring.
pub open spec fn rect_of(s: Seq<PixelCoord>) -> IntRect {
    IntRect {
        min_x: spec_min_x(s) as i64,
        min_y: spec_min_y(s) as i64,
        max_x: spec_max_x(s) as i64,
        max_y: spec_max_y(s) as i64,
    }
}

/// Computes the bounding rectangle of a non-empty ring.
pub fn bounding_rect(s: &Ring) -> (r: IntRect)
    requires
        s@.len() >= 1,
    ensures
        r == rect_of(s@),
        is_bounding_rect(r, s@),
        r.is_normal(),
{
    let mut min_x: i64 = s[0].x;
    let mut max_x: i64 = s[0].x;
    let mut min_y: i64 = s[0].y;
    let mut max_y: i64 = s[0].y;
    let mut i: usize = 1;
    while i < s.len()
        invariant
            1 <= i <= s@.len(),
            min_x <= max_x,
            min_y <= max_y,
            min_x as int == spec_min_x(s@.take(i as int)),
            max_x as int == spec_max_x(s@.take(i as int)),
            min_y as int == spec_min_y(s@.take(i as int)),
            max_y as int == spec_max_y(s@.take(i as int)),
            forall|k: int| 0 <= k < i ==> min_x <= (#[trigger] s@[k]).x <= max_x,
            forall|k: int| 0 <= k < i ==> min_y <= (#[trigger] s@[k]).y <= max_y,
            exists|k: int| 0 <= k < i && (#[trigger] s@[k]).x == min_x,
            exists|k: int| 0 <= k < i && (#[trigger] s@[k]).x == max_x,
            exists|k: int| 0 <= k < i && (#[trigger] s@[k]).y == min_y,
            exists|k: int| 0 <= k < i && (#[trigger] s@[k]).y == max_y,
        decreases s@.len() - i,
    {
        let c = s[i];
        proof {
            let t = s@.take(i as int + 1);
            assert(t.drop_last() =~= s@.take(i as int));
            assert(t.last() == s@[i as int]);
        }
        if c.x < min_x {
            min_x = c.x;
        }
        if c.x > max_x {
            max_x = c.x;
        }
        if c.y < min_y {
            min_y = c.y;
        }
        if c.y > max_y {
            max_y = c.y;
        }
        i += 1;
    }
    proof {
        assert(s@.take(s@.len() as int) =~= s@);
    }
    IntRect { min_x, min_y, max_x, max_y }
}

/// The cross product term contributed by the edge from `a` to `b` in the
/// surveyor's formula.
pub open spec fn cross_term(a: PixelCoord, b: PixelCoord) -> int {
    a.x * b.y - b.x * a.y
}

/// Sum of the cross terms along the open chain of the sequence (no implicit
/// closing edge).
pub open spec fn chain_sum(s: Seq<PixelCoord>) -> int
    decreases s.len(),
{
    if s.len() < 2 {
        0
    } else {
        cross_term(s[0], s[1]) + chain_sum(s.skip(1))
    }
}

/// Twice the signed area of the ring, by the surveyor's formula, with the
/// closing edge implicit.
///
/// In tile pixel space the `y` axis points down, so a ring that looks
/// counter-clockwise on screen has `signed_area2 <= 0`.
pub open spec fn signed_area2(s: Seq<PixelCoord>) -> int {
    if s.len() == 0 {
        0
    } else {
        chain_sum(s) + cross_term(s[s.len() - 1], s[0])
    }
}

/// Appending one vertex extends the chain sum by the final edge.
pub proof fn lemma_chain_sum_push(s: Seq<PixelCoord>, v: PixelCoord)
    ensures
        chain_sum(s.push(v)) == chain_sum(s) + if s.len() >= 1 {
            cross_term(s[s.len() - 1], v)
        } else {
            0
        },
    decreases s.len(),
{
    if s.len() == 0 {
        assert(s.push(v).len() == 1);
    } else if s.len() == 1 {
        let p = s.push(v);
        assert(p[0] == s[0]);
        assert(p[1] == v);
        assert(p.skip(1) =~= seq![v]);
        assert(chain_sum(p) == cross_term(p[0], p[1]) + chain_sum(p.skip(1)));
        assert(chain_sum(seq![v]) == 0);
        assert(chain_sum(s) == 0);
    } else {
        let p = s.push(v);
        assert(p.len() == s.len() + 1);
        assert(p.skip(1) =~= s.skip(1).push(v));
        lemma_chain_sum_push(s.skip(1), v);
        assert(s.skip(1)[s.len() - 2] == s[s.len() - 1]);
        assert(chain_sum(p) == cross_term(p[0], p[1]) + chain_sum(p.skip(1)));
        assert(p[0] == s[0] && p[1] == s[1]);
        assert(chain_sum(s) == cross_term(s[0], s[1]) + chain_sum(s.skip(1)));
    }
}

/// Reversing a sequence negates its chain sum.
pub proof fn lemma_chain_sum_reverse(s: Seq<PixelCoord>)
    ensures
        chain_sum(s.reverse()) == -chain_sum(s),
    decreases s.len(),
{
    if s.len() < 2 {
    } else {
        let n = s.len() as int;
        let t = s.skip(1);
        lemma_chain_sum_reverse(t);
        assert(s.reverse() =~= t.reverse().push(s[0]));
        lemma_chain_sum_push(t.reverse(), s[0]);
        assert(t.reverse()[t.len() - 1] == t[0]);
        assert(cross_term(t[0], s[0]) == -cross_term(s[0], s[1]));
    }
}

/// Reversing a ring negates its signed area.
pub proof fn lemma_signed_area2_reverse(s: Seq<PixelCoord>)
    ensures
        signed_area2(s.reverse()) == -signed_area2(s),
{
    if s.len() == 0 {
    } else {
        lemma_chain_sum_reverse(s);
        let n = s.len() as int;
        assert(s.reverse()[n - 1] == s[0]);
        assert(s.reverse()[0] == s[n - 1]);
        assert(cross_term(s[0], s[n - 1]) == -cross_term(s[n - 1], s[0]));
    }
}

/// Computes twice the signed area of a ring, exactly.
pub fn signed_area2_exec(s: &Ring) -> (r: i128)
    requires
        ring_in_range(s@),
        s@.len() <= RING_LIMIT,
    ensures
        r as int == signed_area2(s@),
{
    if s.len() == 0 {
        return 0;
    }
    proof {
        lemma_chain_sum_bound(s@, s@.len() as int);
    }
    let n = s.len();
    let mut acc: i128 = 0;
    let mut i: usize = 1;
    while i < n
        invariant
            1 <= i <= n,
            n == s@.len(),
            n <= RING_LIMIT,
            ring_in_range(s@),
            acc as int == chain_sum(s@.take(i as int)),
            -(i as int) * 0x1_0000_0000_0000_0000_0i128 <= acc as int <= (i as int)
                * 0x1_0000_0000_0000_0000_0i128,
        decreases n - i,
    {
        let a = s[i - 1];
        let b = s[i];
        proof {
            lemma_cross_term_bound(a, b);
            assert(s@.take(i as int + 1) =~= s@.take(i as int).push(s@[i as int]));
            lemma_chain_sum_push(s@.take(i as int), s@[i as int]);
            assert(s@.take(i as int)[i - 1] == s@[i - 1]);
            assert((i as int) * 0x1_0000_0000_0000_0000_0i128 + 0x1_0000_0000_0000_0000_0i128 == (i
                as int + 1) * 0x1_0000_0000_0000_0000_0i128) by (nonlinear_arith);
        }
        let term: i128 = (a.x as i128) * (b.y as i128) - (b.x as i128) * (a.y as i128);
        acc = acc + term;
        i += 1;
    }
    let a = s[n - 1];
    let b = s[0];
    proof {
        lemma_cross_term_bound(a, b);
        assert(s@.take(n as int) =~= s@);
        assert((n as int) * 0x1_0000_0000_0000_0000_0i128 <= 0x1000_0000i128
            * 0x1_0000_0000_0000_0000_0i128) by (nonlinear_arith)
            requires
                n <= 0x1000_0000,
        ;
        assert(-(0x1000_0000i128 * 0x1_0000_0000_0000_0000_0i128) <= -((n as int)
            * 0x1_0000_0000_0000_0000_0i128));
    }
    let term: i128 = (a.x as i128) * (b.y as i128) - (b.x as i128) * (a.y as i128);
    acc + term
}

/// The cross term of two in-range coordinates is bounded.
proof fn lemma_cross_term_bound(a: PixelCoord, b: PixelCoord)
    requires
        a.in_range(),
        b.in_range(),
    ensures
        -0x1_0000_0000_0000_0000_0 <= cross_term(a, b) <= 0x1_0000_0000_0000_0000_0,
        -0x8_0000_0000_0000_0000 <= a.x * b.y <= 0x8_0000_0000_0000_0000,
        -0x8_0000_0000_0000_0000 <= b.x * a.y <= 0x8_0000_0000_0000_0000,
{
    assert(-0x8_0000_0000_0000_0000 <= a.x * b.y <= 0x8_0000_0000_0000_0000) by (nonlinear_arith)
        requires
            -0x2_0000_0000 <= a.x <= 0x2_0000_0000,
            -0x2_0000_0000 <= b.y <= 0x2_0000_0000,
    ;
    assert(-0x8_0000_0000_0000_0000 <= b.x * a.y <= 0x8_0000_0000_0000_0000) by (nonlinear_arith)
        requires
            -0x2_0000_0000 <= b.x <= 0x2_0000_0000,
            -0x2_0000_0000 <= a.y <= 0x2_0000_0000,
    ;
}

/// The chain sum of an in-range prefix is bounded by its length.
proof fn lemma_chain_sum_bound(s: Seq<PixelCoord>, m: int)
    requires
        ring_in_range(s),
        0 <= m <= s.len(),
    ensures
        -m * 0x1_0000_0000_0000_0000_0 <= chain_sum(s.take(m)) <= m * 0x1_0000_0000_0000_0000_0,
    decreases m,
{
    if m == 0 {
        assert(s.take(0).len() == 0);
    } else {
        lemma_chain_sum_bound(s, m - 1);
        assert(s.take(m) =~= s.take(m - 1).push(s[m - 1]));
        lemma_chain_sum_push(s.take(m - 1), s[m - 1]);
        if m >= 2 {
            assert(s.take(m - 1)[m - 2] == s[m - 2]);
            lemma_cross_term_bound(s[m - 2], s[m - 1]);
        }
        assert((m - 1) * 0x1_0000_0000_0000_0000_0 + 0x1_0000_0000_0000_0000_0 == m
            * 0x1_0000_0000_0000_0000_0) by (nonlinear_arith);
    }
}

/// True when the ring has a well-defined winding order: at least four
/// vertices, explicitly closed, and of nonzero area.
///
/// This mirrors when the winding of a simple (non-self-crossing) ring is
/// recognised by the geometry library the renderer interoperates with; rings
/// that fail the test are left as they are by the winding enforcers.
pub open spec fn winding_defined(s: Seq<PixelCoord>) -> bool {
    &&& s.len() >= 4
    &&& s[0] == s[s.len() - 1]
    &&& signed_area2(s) != 0
}

/// The ring, rewound clockwise (negative signed area by the surveyor's
/// formula) when its winding is defined, unchanged otherwise.
///
/// Note that on a screen whose `y` axis points down such a ring appears
/// counter-clockwise.
pub open spec fn spec_make_cw(s: Seq<PixelCoord>) -> Seq<PixelCoord> {
    if winding_defined(s) && signed_area2(s) > 0 {
        s.reverse()
    } else {
        s
    }
}

/// The ring, rewound counter-clockwise (positive signed area by the
/// surveyor's formula) when its winding is defined, unchanged otherwise.
///
/// Note that on a screen whose `y` axis points down such a ring appears
/// clockwise.
pub open spec fn spec_make_ccw(s: Seq<PixelCoord>) -> Seq<PixelCoord> {
    if winding_defined(s) && signed_area2(s) < 0 {
        s.reverse()
    } else {
        s
    }
}

/// Decides whether the ring's winding order is defined, and if so returns
/// twice its signed area.
fn winding_area(s: &Ring) -> (r: Option<i128>)
    requires
        ring_in_range(s@),
        s@.len() <= RING_LIMIT,
    ensures
        r is Some <==> winding_defined(s@),
        r is Some ==> r->0 as int == signed_area2(s@),
{
    if s.len() < 4 {
        return None;
    }
    let first = s[0];
    let last = s[s.len() - 1];
    if !(first.x == last.x && first.y == last.y) {
        return None;
    }
    let area = signed_area2_exec(s);
    if area == 0 {
        None
    } else {
        Some(area)
    }
}

/// Rewinds the ring clockwise (negative signed area) when its winding is
/// defined; leaves it unchanged otherwise.
pub fn make_cw(s: Ring) -> (r: Ring)
    requires
        ring_in_range(s@),
        s@.len() <= RING_LIMIT,
    ensures
        r@ == spec_make_cw(s@),
        winding_defined(s@) ==> signed_area2(r@) < 0,
        ring_in_range(r@),
        r@.len() == s@.len(),
{
    proof {
        lemma_signed_area2_reverse(s@);
        assert(s@.reverse().len() == s@.len());
        assert(forall|i: int|
            0 <= i < s@.len() ==> s@.reverse()[i] == s@[s@.len() - 1 - i]
                && (#[trigger] s@.reverse()[i]).in_range());
    }
    match winding_area(&s) {
        Some(area) => {
            if area > 0 {
                reverse_ring(&s)
            } else {
                s
            }
        },
        None => s,
    }
}

/// Rewinds the ring counter-clockwise, making its signed area positive,
/// when its winding is defined; leaves it unchanged otherwise.
pub fn make_ccw(s: Ring) -> (r: Ring)
    requires
        ring_in_range(s@),
        s@.len() <= RING_LIMIT,
    ensures
        r@ == spec_make_ccw(s@),
        winding_defined(s@) ==> signed_area2(r@) > 0,
        ring_in_range(r@),
        r@.len() == s@.len(),
{
    proof {
        lemma_signed_area2_reverse(s@);
        assert(s@.reverse().len() == s@.len());
        assert(forall|i: int|
            0 <= i < s@.len() ==> s@.reverse()[i] == s@[s@.len() - 1 - i]
                && (#[trigger] s@.reverse()[i]).in_range());
    }
    match winding_area(&s) {
        Some(area) => {
            if area < 0 {
                reverse_ring(&s)
            } else {
                s
            }
        },
        None => s,
    }
}

/// Returns the ring with its vertices in reverse order.
pub fn reverse_ring(s: &Ring) -> (r: Ring)
    ensures
        r@ == s@.reverse(),
{
    let n = s.len();
    let mut r: Ring = Vec::new();
    let mut i: usize = 0;
    while i < n
        invariant
            0 <= i <= n,
            n == s@.len(),
            r@.len() == i,
            forall|k: int| 0 <= k < i ==> r@[k] == s@[n - 1 - k],
        decreases n - i,
    {
        r.push(s[n - 1 - i]);
        i += 1;
    }
    proof {
        assert(r@ =~= s@.reverse());
    }
    r
}

} // verus!
