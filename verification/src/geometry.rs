use vstd::prelude::*;

verus! {

/// Coordinates are fixed-point degrees: 1,500,000 units per degree.
/// Every coordinate the library handles stays below this bound, which
/// keeps all intersection arithmetic inside 128-bit integers.
pub const COORD_LIMIT: i64 = 100_000_000_000_000;

/// A point in scaled lat/long space: `x` is longitude, `y` latitude.
#[derive(Clone, Copy, PartialEq, Eq, Structural, Debug)]
pub struct Point {
    pub x: i64,
    pub y: i64,
}

/// An axis-aligned rectangle, corners inclusive.
#[derive(Clone, Copy, PartialEq, Eq, Structural, Debug)]
pub struct Rect {
    pub min: Point,
    pub max: Point,
}

pub open spec fn coord_in_limit(v: int) -> bool {
    -COORD_LIMIT <= v <= COORD_LIMIT
}

pub open spec fn point_in_limit(p: Point) -> bool {
    coord_in_limit(p.x as int) && coord_in_limit(p.y as int)
}

pub open spec fn ring_in_limit(ring: Seq<Point>) -> bool {
    forall|i: int| 0 <= i < ring.len() ==> point_in_limit(#[trigger] ring[i])
}

pub open spec fn rings_in_limit(holes: Seq<Vec<Point>>) -> bool {
    forall|j: int| 0 <= j < holes.len() ==> ring_in_limit((#[trigger] holes[j])@)
}

/// Whether the edge from `a` to `b` crosses the horizontal ray that
/// starts at `p` and runs towards increasing `x`: the edge must straddle
/// the ray's line, and the crossing must lie strictly right of `p`.
pub open spec fn edge_crosses(px: int, py: int, ax: int, ay: int, bx: int, by: int) -> bool {
    ((ay > py) != (by > py)) && {
        let lhs = (px - ax) * (by - ay);
        let rhs = (py - ay) * (bx - ax);
        if by > ay {
            lhs < rhs
        } else {
            lhs > rhs
        }
    }
}

/// The endpoint that follows `ring[i]` on the closed ring.
pub open spec fn ring_next(ring: Seq<Point>, i: int) -> Point {
    if i + 1 == ring.len() {
        ring[0]
    } else {
        ring[i + 1]
    }
}

/// Whether an odd number of the first `i` edges of the ring cross the
/// ray from `p`.
pub open spec fn in_ring_upto(px: int, py: int, ring: Seq<Point>, i: int) -> bool
    decreases i,
{
    if i <= 0 {
        false
    } else {
        let a = ring[i - 1];
        let b = ring_next(ring, i - 1);
        in_ring_upto(px, py, ring, i - 1) != edge_crosses(
            px,
            py,
            a.x as int,
            a.y as int,
            b.x as int,
            b.y as int,
        )
    }
}

/// Even-odd membership: a point is inside a closed ring when the ray
/// from it towards increasing `x` crosses the ring an odd number of
/// times.
pub open spec fn spec_in_ring(px: int, py: int, ring: Seq<Point>) -> bool {
    in_ring_upto(px, py, ring, ring.len() as int)
}

/// Tests even-odd membership of `p` in the closed ring.
pub fn point_in_ring(p: Point, ring: &Vec<Point>) -> (r: bool)
    requires
        point_in_limit(p),
        ring_in_limit(ring@),
    ensures
        r == spec_in_ring(p.x as int, p.y as int, ring@),
{
    let n = ring.len();
    let mut inside = false;
    let mut i: usize = 0;
    while i < n
        invariant
            n == ring@.len(),
            i <= n,
            point_in_limit(p),
            ring_in_limit(ring@),
            inside == in_ring_upto(p.x as int, p.y as int, ring@, i as int),
        decreases n - i,
    {
        let a = ring[i];
        let b = if i + 1 == n {
            ring[0]
        } else {
            ring[i + 1]
        };
        proof {
            assert(point_in_limit(ring@[i as int]));
            assert(point_in_limit(ring_next(ring@, i as int)));
            assert((p.x - a.x) * (b.y - a.y)
                <= 40_000_000_000_000_000_000_000_000_000 && (p.x - a.x) * (b.y - a.y)
                >= -40_000_000_000_000_000_000_000_000_000 && (p.y - a.y) * (b.x - a.x)
                <= 40_000_000_000_000_000_000_000_000_000 && (p.y - a.y) * (b.x - a.x)
                >= -40_000_000_000_000_000_000_000_000_000) by (nonlinear_arith)
                requires
                    -200_000_000_000_000 <= p.x - a.x <= 200_000_000_000_000,
                    -200_000_000_000_000 <= b.y - a.y <= 200_000_000_000_000,
                    -200_000_000_000_000 <= p.y - a.y <= 200_000_000_000_000,
                    -200_000_000_000_000 <= b.x - a.x <= 200_000_000_000_000,
            ;
        }
        let crosses = if (a.y > p.y) != (b.y > p.y) {
            let lhs: i128 = ((p.x as i128) - (a.x as i128)) * ((b.y as i128) - (a.y as i128));
            let rhs: i128 = ((p.y as i128) - (a.y as i128)) * ((b.x as i128) - (a.x as i128));
            if b.y > a.y {
                lhs < rhs
            } else {
                lhs > rhs
            }
        } else {
            false
        };
        proof {
            assert(a == ring@[i as int]);
            assert(b == ring_next(ring@, i as int));
            assert(crosses == edge_crosses(
                p.x as int,
                p.y as int,
                a.x as int,
                a.y as int,
                b.x as int,
                b.y as int,
            ));
        }
        inside = inside != crosses;
        i = i + 1;
    }
    inside
}

/// Whether the edge starting at `ring[j]` straddles the horizontal line
/// through `py`.
pub open spec fn edge_straddles(py: int, ring: Seq<Point>, j: int) -> bool {
    (ring[j].y > py) != (ring_next(ring, j).y > py)
}

/// Shorthand for the crossing test of the ring's `j`-th edge.
pub open spec fn ring_edge_crosses(px: int, py: int, ring: Seq<Point>, j: int) -> bool {
    edge_crosses(
        px,
        py,
        ring[j].x as int,
        ring[j].y as int,
        ring_next(ring, j).x as int,
        ring_next(ring, j).y as int,
    )
}

/// An edge whose endpoints both sit at or left of `px` cannot cross the
/// rightward ray from `px`.
proof fn lemma_edge_no_cross_from_right(px: int, py: int, ax: int, ay: int, bx: int, by: int)
    requires
        ax <= px,
        bx <= px,
    ensures
        !edge_crosses(px, py, ax, ay, bx, by),
{
    if (ay > py) != (by > py) {
        if by > ay {
            assert((px - ax) * (by - ay) >= (py - ay) * (bx - ax)) by (nonlinear_arith)
                requires
                    ax <= px,
                    bx <= px,
                    ay <= py < by,
            ;
        } else {
            assert((px - ax) * (by - ay) <= (py - ay) * (bx - ax)) by (nonlinear_arith)
                requires
                    ax <= px,
                    bx <= px,
                    by <= py < ay,
            ;
        }
    }
}

/// An edge strictly right of `px` crosses the rightward ray exactly
/// when it straddles the ray's line.
proof fn lemma_edge_cross_from_left(px: int, py: int, ax: int, ay: int, bx: int, by: int)
    requires
        px < ax,
        px < bx,
    ensures
        edge_crosses(px, py, ax, ay, bx, by) == ((ay > py) != (by > py)),
{
    if (ay > py) != (by > py) {
        if by > ay {
            assert((px - ax) * (by - ay) < (py - ay) * (bx - ax)) by (nonlinear_arith)
                requires
                    px < ax,
                    px < bx,
                    ay <= py < by,
            ;
        } else {
            assert((px - ax) * (by - ay) > (py - ay) * (bx - ax)) by (nonlinear_arith)
                requires
                    px < ax,
                    px < bx,
                    by <= py < ay,
            ;
        }
    }
}

/// If no edge among the first `i` crosses the ray, the prefix parity is
/// even.
proof fn lemma_upto_no_cross(px: int, py: int, ring: Seq<Point>, i: int)
    requires
        0 <= i <= ring.len(),
        forall|j: int| 0 <= j < i ==> !#[trigger] ring_edge_crosses(px, py, ring, j),
    ensures
        !in_ring_upto(px, py, ring, i),
    decreases i,
{
    if i > 0 {
        lemma_upto_no_cross(px, py, ring, i - 1);
        assert(!ring_edge_crosses(px, py, ring, i - 1));
    }
}

/// If every edge among the first `i` (none of which wraps) crosses
/// exactly when it straddles, the prefix parity equals whether the
/// first and `i`-th vertices sit on opposite sides of the ray's line.
proof fn lemma_upto_straddle_parity(px: int, py: int, ring: Seq<Point>, i: int)
    requires
        0 <= i < ring.len(),
        forall|j: int|
            0 <= j < i ==> #[trigger] ring_edge_crosses(px, py, ring, j) == edge_straddles(
                py,
                ring,
                j,
            ),
    ensures
        in_ring_upto(px, py, ring, i) == ((ring[0].y > py) != (ring[i].y > py)),
    decreases i,
{
    if i > 0 {
        lemma_upto_straddle_parity(px, py, ring, i - 1);
        assert(ring_edge_crosses(px, py, ring, i - 1) == edge_straddles(py, ring, i - 1));
        assert(ring_next(ring, i - 1) == ring[i]);
    }
}

/// A point whose coordinates lie outside the span of a ring (strictly
/// left, at or right, strictly below, or at or above it) is not inside
/// the ring under even-odd membership.
pub proof fn lemma_outside_span_not_in_ring(
    px: int,
    py: int,
    ring: Seq<Point>,
    min_x: int,
    min_y: int,
    max_x: int,
    max_y: int,
)
    requires
        forall|q: int|
            0 <= q < ring.len() ==> min_x <= (#[trigger] ring[q]).x && ring[q].x <= max_x && min_y
                <= ring[q].y && ring[q].y <= max_y,
        px < min_x || px >= max_x || py < min_y || py >= max_y,
    ensures
        !spec_in_ring(px, py, ring),
{
    let n = ring.len() as int;
    if n == 0 {
        assert(!in_ring_upto(px, py, ring, 0));
        return ;
    }
    if px >= max_x || py < min_y || py >= max_y {
        assert forall|j: int| 0 <= j < n implies !#[trigger] ring_edge_crosses(px, py, ring, j) by {
            let a = ring[j];
            let b = ring_next(ring, j);
            assert(b == ring[if j + 1 == n {
                0int
            } else {
                j + 1
            }]);
            if px >= max_x {
                lemma_edge_no_cross_from_right(px, py, a.x as int, a.y as int, b.x as int, b.y as int);
            } else {
                // the edge's endpoints lie on one side of the ray's line
                assert((a.y as int > py) == (b.y as int > py));
            }
        }
        lemma_upto_no_cross(px, py, ring, n);
    } else {
        // px < min_x: every straddling edge crosses, and a closed ring
        // straddles any horizontal line an even number of times.
        assert forall|j: int| 0 <= j < n implies #[trigger] ring_edge_crosses(px, py, ring, j)
            == edge_straddles(py, ring, j) by {
            let a = ring[j];
            let b = ring_next(ring, j);
            assert(b == ring[if j + 1 == n {
                0int
            } else {
                j + 1
            }]);
            lemma_edge_cross_from_left(px, py, a.x as int, a.y as int, b.x as int, b.y as int);
        }
        lemma_upto_straddle_parity(px, py, ring, n - 1);
        assert(ring_next(ring, n - 1) == ring[0]);
        assert(in_ring_upto(px, py, ring, n) == (in_ring_upto(px, py, ring, n - 1)
            != ring_edge_crosses(px, py, ring, n - 1)));
        assert(ring_edge_crosses(px, py, ring, n - 1) == edge_straddles(py, ring, n - 1));
        assert(edge_straddles(py, ring, n - 1) == ((ring[n - 1].y > py) != (ring[0].y > py)));
        assert(!in_ring_upto(px, py, ring, n));
    }
}

/// A point inside a ring under even-odd membership lies within the
/// ring's tight bounding span: at or right of the leftmost vertex,
/// strictly left of the rightmost, at or above the lowest, strictly
/// below the highest.
pub proof fn lemma_in_ring_in_span(
    px: int,
    py: int,
    ring: Seq<Point>,
    min_x: int,
    min_y: int,
    max_x: int,
    max_y: int,
)
    requires
        forall|q: int|
            0 <= q < ring.len() ==> min_x <= (#[trigger] ring[q]).x && ring[q].x <= max_x && min_y
                <= ring[q].y && ring[q].y <= max_y,
        spec_in_ring(px, py, ring),
    ensures
        min_x <= px < max_x,
        min_y <= py < max_y,
{
    if px < min_x || px >= max_x || py < min_y || py >= max_y {
        lemma_outside_span_not_in_ring(px, py, ring, min_x, min_y, max_x, max_y);
    }
}

/// A water polygon: one outer ring, zero or more hole rings, and the
/// precomputed axis-aligned bounding rectangle of the outer ring.
pub struct Polygon {
    pub outer: Vec<Point>,
    pub holes: Vec<Vec<Point>>,
    pub bounding_rect: Rect,
}

impl Polygon {
    /// The bounding rectangle is exactly tight around the outer ring,
    /// every coordinate is in range, and the outer ring is not empty.
    pub open spec fn well_formed(&self) -> bool {
        &&& self.outer@.len() >= 1
        &&& ring_in_limit(self.outer@)
        &&& forall|j: int| 0 <= j < self.holes@.len() ==> ring_in_limit(#[trigger] self.holes@[j]@)
        &&& forall|i: int|
            0 <= i < self.outer@.len() ==> self.bounding_rect.min.x <= (#[trigger] self.outer@[i]).x
                && self.outer@[i].x <= self.bounding_rect.max.x && self.bounding_rect.min.y
                <= self.outer@[i].y && self.outer@[i].y <= self.bounding_rect.max.y
        &&& exists|i: int|
            0 <= i < self.outer@.len() && (#[trigger] self.outer@[i]).x == self.bounding_rect.min.x
        &&& exists|i: int|
            0 <= i < self.outer@.len() && (#[trigger] self.outer@[i]).x == self.bounding_rect.max.x
        &&& exists|i: int|
            0 <= i < self.outer@.len() && (#[trigger] self.outer@[i]).y == self.bounding_rect.min.y
        &&& exists|i: int|
            0 <= i < self.outer@.len() && (#[trigger] self.outer@[i]).y == self.bounding_rect.max.y
    }

    /// Membership in the polygon: inside the outer ring and inside none
    /// of the hole rings.
    pub open spec fn spec_contains(&self, px: int, py: int) -> bool {
        spec_in_ring(px, py, self.outer@) && forall|j: int|
            0 <= j < self.holes@.len() ==> !spec_in_ring(px, py, #[trigger] self.holes@[j]@)
    }

    /// Builds a polygon from its rings, computing the bounding rectangle
    /// of the outer ring. Yields nothing exactly when the outer ring is
    /// empty or some coordinate is out of range.
    pub fn new(outer: Vec<Point>, holes: Vec<Vec<Point>>) -> (r: Option<Polygon>)
        ensures
            r is Some ==> (r.unwrap().well_formed() && r.unwrap().outer@ == outer@
                && r.unwrap().holes@ == holes@),
            r is None ==> (outer@.len() == 0 || !ring_in_limit(outer@) || !rings_in_limit(
                holes@,
            )),
    {
        if outer.len() == 0 {
            return Option::None;
        }
        let first = outer[0];
        if !coord_ok(first.x) || !coord_ok(first.y) {
            return Option::None;
        }
        let mut min_x = first.x;
        let mut max_x = first.x;
        let mut min_y = first.y;
        let mut max_y = first.y;
        let mut i: usize = 1;
        while i < outer.len()
            invariant
                1 <= i <= outer@.len(),
                forall|q: int| 0 <= q < i ==> point_in_limit(#[trigger] outer@[q]),
                forall|q: int|
                    0 <= q < i ==> min_x <= (#[trigger] outer@[q]).x && outer@[q].x <= max_x
                        && min_y <= outer@[q].y && outer@[q].y <= max_y,
                exists|q: int| 0 <= q < i && (#[trigger] outer@[q]).x == min_x,
                exists|q: int| 0 <= q < i && (#[trigger] outer@[q]).x == max_x,
                exists|q: int| 0 <= q < i && (#[trigger] outer@[q]).y == min_y,
                exists|q: int| 0 <= q < i && (#[trigger] outer@[q]).y == max_y,
            decreases outer@.len() - i,
        {
            let pt = outer[i];
            if !coord_ok(pt.x) || !coord_ok(pt.y) {
                proof {
                    assert(!point_in_limit(outer@[i as int]));
                    assert(!ring_in_limit(outer@));
                }
                return Option::None;
            }
            if pt.x < min_x {
                min_x = pt.x;
            }
            if pt.x > max_x {
                max_x = pt.x;
            }
            if pt.y < min_y {
                min_y = pt.y;
            }
            if pt.y > max_y {
                max_y = pt.y;
            }
            i = i + 1;
        }
        let mut j: usize = 0;
        while j < holes.len()
            invariant
                j <= holes@.len(),
                forall|q: int| 0 <= q < j ==> ring_in_limit(#[trigger] holes@[q]@),
            decreases holes@.len() - j,
        {
            let hole = &holes[j];
            let mut q: usize = 0;
            while q < hole.len()
                invariant
                    q <= hole@.len(),
                    j < holes@.len(),
                    hole == &holes@[j as int],
                    forall|t: int| 0 <= t < q ==> point_in_limit(#[trigger] hole@[t]),
                decreases hole@.len() - q,
            {
                let pt = hole[q];
                if !coord_ok(pt.x) || !coord_ok(pt.y) {
                    proof {
                        assert(!point_in_limit(holes@[j as int]@[q as int]));
                        assert(!ring_in_limit(holes@[j as int]@));
                        assert(!rings_in_limit(holes@));
                    }
                    return Option::None;
                }
                q = q + 1;
            }
            j = j + 1;
        }
        proof {
            assert(outer@.len() >= 1);
            assert(ring_in_limit(outer@));
            assert(forall|q: int| 0 <= q < holes@.len() ==> ring_in_limit(#[trigger] holes@[q]@));
            assert(forall|q: int|
                0 <= q < outer@.len() ==> min_x <= (#[trigger] outer@[q]).x && outer@[q].x <= max_x
                    && min_y <= outer@[q].y && outer@[q].y <= max_y);
            assert(exists|q: int| 0 <= q < outer@.len() && (#[trigger] outer@[q]).x == min_x);
            assert(exists|q: int| 0 <= q < outer@.len() && (#[trigger] outer@[q]).x == max_x);
            assert(exists|q: int| 0 <= q < outer@.len() && (#[trigger] outer@[q]).y == min_y);
            assert(exists|q: int| 0 <= q < outer@.len() && (#[trigger] outer@[q]).y == max_y);
        }
        Option::Some(
            Polygon {
                outer,
                holes,
                bounding_rect: Rect { min: Point { x: min_x, y: min_y }, max: Point { x: max_x, y: max_y } },
            },
        )
    }

    /// Tests whether the polygon contains `p`: inside the outer ring
    /// and inside none of the holes.
    pub fn contains(&self, p: Point) -> (r: bool)
        requires
            self.well_formed(),
            point_in_limit(p),
        ensures
            r == self.spec_contains(p.x as int, p.y as int),
    {
        if !point_in_ring(p, &self.outer) {
            return false;
        }
        let mut j: usize = 0;
        while j < self.holes.len()
            invariant
                self.well_formed(),
                point_in_limit(p),
                j <= self.holes@.len(),
                spec_in_ring(p.x as int, p.y as int, self.outer@),
                forall|q: int|
                    0 <= q < j ==> !spec_in_ring(p.x as int, p.y as int, #[trigger] self.holes@[q]@),
            decreases self.holes@.len() - j,
        {
            if point_in_ring(p, &self.holes[j]) {
                return false;
            }
            j = j + 1;
        }
        true
    }
}

/// Whether a coordinate is within the library's fixed bound.
pub fn coord_ok(v: i64) -> (r: bool)
    ensures
        r == coord_in_limit(v as int),
{
    -COORD_LIMIT <= v && v <= COORD_LIMIT
}

/// The two rectangles overlap, boundaries included.
pub fn rect_intersects(a: &Rect, b: &Rect) -> (r: bool)
    ensures
        r == spec_rect_intersects(*a, *b),
{
    a.min.x <= b.max.x && b.min.x <= a.max.x && a.min.y <= b.max.y && b.min.y <= a.max.y
}

pub open spec fn spec_rect_intersects(a: Rect, b: Rect) -> bool {
    a.min.x <= b.max.x && b.min.x <= a.max.x && a.min.y <= b.max.y && b.min.y <= a.max.y
}

/// `a` wholly contains `b`, boundaries included.
pub fn rect_contains_rect(a: &Rect, b: &Rect) -> (r: bool)
    ensures
        r == spec_rect_contains_rect(*a, *b),
{
    a.min.x <= b.min.x && b.max.x <= a.max.x && a.min.y <= b.min.y && b.max.y <= a.max.y
}

pub open spec fn spec_rect_contains_rect(a: Rect, b: Rect) -> bool {
    a.min.x <= b.min.x && b.max.x <= a.max.x && a.min.y <= b.min.y && b.max.y <= a.max.y
}

/// The cheap rejection test the rasterizer runs before point tests: the
/// polygon's bounding rectangle overlaps, contains, or is contained by
/// the tile rectangle.
pub open spec fn spec_candidate(bounding: Rect, tile: Rect) -> bool {
    spec_rect_intersects(bounding, tile) || spec_rect_contains_rect(bounding, tile)
        || spec_rect_contains_rect(tile, bounding)
}

/// Runs the rasterizer's cheap rejection test.
pub fn is_candidate(bounding: &Rect, tile: &Rect) -> (r: bool)
    ensures
        r == spec_candidate(*bounding, *tile),
{
    rect_intersects(bounding, tile) || rect_contains_rect(bounding, tile) || rect_contains_rect(
        tile,
        bounding,
    )
}

} // verus!
