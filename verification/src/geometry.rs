use crate::constants::GEOMETRY_LIMIT;
use crate::coord::Coord;
use vstd::prelude::*;

verus! {

/// A polygon: an outer ring and any number of holes, each a sequence of
/// positions in millimetres.
#[derive(Debug, Clone, PartialEq)]
pub struct Polygon {
    pub exterior: Vec<Coord>,
    pub interiors: Vec<Vec<Coord>>,
}

/// Several polygons taken together.
#[derive(Debug, Clone, PartialEq)]
pub struct MultiPolygon(pub Vec<Polygon>);

/// An upright rectangle, given by its least and its greatest corner.
#[derive(Debug, Clone, Copy, PartialEq, Eq, Structural)]
pub struct Rect {
    min: Coord,
    max: Coord,
}

impl Rect {
    /// The least corner.
    pub closed spec fn spec_min(&self) -> Coord {
        self.min
    }

    /// The greatest corner.
    pub closed spec fn spec_max(&self) -> Coord {
        self.max
    }

    /// The rectangle with `a` and `b` as opposite corners, whichever way
    /// round they are given.
    pub fn new(a: Coord, b: Coord) -> (r: Rect)
        ensures
            r.spec_min().x == if a.x <= b.x { a.x } else { b.x },
            r.spec_min().y == if a.y <= b.y { a.y } else { b.y },
            r.spec_max().x == if a.x <= b.x { b.x } else { a.x },
            r.spec_max().y == if a.y <= b.y { b.y } else { a.y },
    {
        let (min_x, max_x) = if a.x <= b.x { (a.x, b.x) } else { (b.x, a.x) };
        let (min_y, max_y) = if a.y <= b.y { (a.y, b.y) } else { (b.y, a.y) };
        Rect { min: Coord { x: min_x, y: min_y }, max: Coord { x: max_x, y: max_y } }
    }

    /// The least corner.
    pub fn min(&self) -> (c: Coord)
        ensures
            c == self.spec_min(),
    {
        self.min
    }

    /// The greatest corner.
    pub fn max(&self) -> (c: Coord)
        ensures
            c == self.spec_max(),
    {
        self.max
    }
}

/// Whether every position of `ring` is within `limit` of zero in both
/// components.
pub open spec fn ring_within(ring: Seq<Coord>, limit: int) -> bool {
    forall|i: int|
        0 <= i < ring.len() ==> -limit <= (#[trigger] ring[i]).x <= limit && -limit <= ring[i].y
            <= limit
}

impl Polygon {
    /// Whether every position of the polygon is within `limit` of zero.
    pub open spec fn within(&self, limit: int) -> bool {
        &&& ring_within(self.exterior@, limit)
        &&& forall|k: int|
            0 <= k < self.interiors@.len() ==> ring_within((#[trigger] self.interiors@[k])@, limit)
    }

    /// The polygon with the given outer ring and no holes.
    pub fn new(exterior: Vec<Coord>) -> (p: Polygon)
        ensures
            p.exterior@ == exterior@,
            p.interiors@.len() == 0,
    {
        Polygon { exterior, interiors: Vec::new() }
    }
}

/// Whether `r` is the integer square root of `n`: the largest integer whose
/// square does not exceed `n`.
pub open spec fn is_floor_sqrt(n: int, r: int) -> bool {
    r >= 0 && r * r <= n < (r + 1) * (r + 1)
}

/// The integer square root of `n`.
pub closed spec fn floor_sqrt(n: int) -> int {
    choose|r: int| is_floor_sqrt(n, r)
}

/// Squaring keeps the order of numbers that are not negative.
pub proof fn lemma_square_order(a: int, b: int)
    requires
        0 <= a < b,
    ensures
        a * a < b * b,
        (a + 1) * (a + 1) <= b * b,
{
    assert(a * a < b * b) by (nonlinear_arith)
        requires
            0 <= a < b,
    ;
    assert((a + 1) * (a + 1) <= b * b) by (nonlinear_arith)
        requires
            0 <= a + 1 <= b,
    ;
}

/// A number has at most one integer square root, and `floor_sqrt` is it.
pub proof fn lemma_floor_sqrt_unique(n: int, r: int)
    requires
        is_floor_sqrt(n, r),
    ensures
        floor_sqrt(n) == r,
{
    let s = floor_sqrt(n);
    assert(is_floor_sqrt(n, s));
    if s < r {
        lemma_square_order(s, r);
    } else if r < s {
        lemma_square_order(r, s);
    }
}

/// Half the width across the flats of a hexagon of circumradius `size`:
/// `size` times the square root of three over two, to the nearest
/// millimetre.
pub open spec fn half_width(size: int) -> int {
    (floor_sqrt(3 * size * size) + 1) / 2
}

/// Half the circumradius, to the nearest millimetre.
pub open spec fn half_height(size: int) -> int {
    (size + 1) / 2
}

/// The ring of the hexagon centred at (`cx`, `cy`) with circumradius
/// `size`: the vertices at 30, 90, 150, 210, 270 and 330 degrees from the
/// centre, counter-clockwise, and the first vertex again.
pub open spec fn hexagon_ring(cx: int, cy: int, size: int) -> Seq<(int, int)> {
    let h = half_width(size);
    let v = half_height(size);
    seq![
        (cx + h, cy + v),
        (cx, cy + size),
        (cx - h, cy + v),
        (cx - h, cy - v),
        (cx, cy - size),
        (cx + h, cy - v),
        (cx + h, cy + v),
    ]
}

/// The positions of `ring` as pairs of integers.
pub open spec fn ring_points(ring: Seq<Coord>) -> Seq<(int, int)> {
    Seq::new(ring.len(), |i: int| (ring[i].x as int, ring[i].y as int))
}

/// The positions of each of `rings` as pairs of integers.
pub open spec fn rings_points(rings: Seq<Vec<Coord>>) -> Seq<Seq<(int, int)>> {
    Seq::new(rings.len(), |k: int| ring_points(rings[k]@))
}

/// The eastings of `ring`.
pub open spec fn eastings(ring: Seq<Coord>) -> Seq<int> {
    Seq::new(ring.len(), |i: int| ring[i].x as int)
}

/// The northings of `ring`.
pub open spec fn northings(ring: Seq<Coord>) -> Seq<int> {
    Seq::new(ring.len(), |i: int| ring[i].y as int)
}

/// The least of the numbers in `s`, which is not empty.
pub open spec fn min_of(s: Seq<int>) -> int
    recommends
        s.len() > 0,
    decreases s.len(),
{
    if s.len() <= 1 {
        s[0]
    } else if s.last() < min_of(s.drop_last()) {
        s.last()
    } else {
        min_of(s.drop_last())
    }
}

/// The greatest of the numbers in `s`, which is not empty.
pub open spec fn max_of(s: Seq<int>) -> int
    recommends
        s.len() > 0,
    decreases s.len(),
{
    if s.len() <= 1 {
        s[0]
    } else if s.last() > max_of(s.drop_last()) {
        s.last()
    } else {
        max_of(s.drop_last())
    }
}

/// The least and the greatest of a sequence are among its numbers, and no
/// number of it lies outside them.
pub proof fn lemma_min_max(s: Seq<int>)
    requires
        s.len() > 0,
    ensures
        s.contains(min_of(s)),
        s.contains(max_of(s)),
        forall|i: int| 0 <= i < s.len() ==> min_of(s) <= #[trigger] s[i] <= max_of(s),
    decreases s.len(),
{
    if s.len() > 1 {
        let t = s.drop_last();
        lemma_min_max(t);
        let lo = choose|i: int| 0 <= i < t.len() && t[i] == min_of(t);
        let hi = choose|i: int| 0 <= i < t.len() && t[i] == max_of(t);
        assert(s[lo] == t[lo] && s[hi] == t[hi]);
        assert(s[s.len() - 1] == s.last());
        assert forall|i: int| 0 <= i < s.len() implies min_of(s) <= #[trigger] s[i] <= max_of(
            s,
        ) by {
            if i < t.len() {
                assert(s[i] == t[i]);
            }
        }
    } else {
        assert(s[0] == min_of(s));
    }
}

/// The smallest upright rectangle round the positions of `ring`, as
/// (least easting, least northing, greatest easting, greatest northing);
/// none for an empty ring.
pub open spec fn bounding_box(ring: Seq<Coord>) -> Option<(int, int, int, int)> {
    if ring.len() == 0 {
        None
    } else {
        Some(
            (
                min_of(eastings(ring)),
                min_of(northings(ring)),
                max_of(eastings(ring)),
                max_of(northings(ring)),
            ),
        )
    }
}

/// A rectangle that may be absent, as four numbers: least easting, least
/// northing, greatest easting, greatest northing.
pub open spec fn corner_values(r: Option<Rect>) -> Option<(int, int, int, int)> {
    match r {
        None => None,
        Some(rect) => Some(
            (
                rect.spec_min().x as int,
                rect.spec_min().y as int,
                rect.spec_max().x as int,
                rect.spec_max().y as int,
            ),
        ),
    }
}

impl Polygon {
    /// The smallest upright rectangle round the outer ring; none where the
    /// outer ring is empty. Holes play no part.
    pub fn bounding_rect(&self) -> (r: Option<Rect>)
        ensures
            corner_values(r) == bounding_box(self.exterior@),
    {
        let ring = &self.exterior;
        if ring.len() == 0 {
            return None;
        }
        let ghost xs = eastings(ring@);
        let ghost ys = northings(ring@);
        let mut min = ring[0];
        let mut max = ring[0];
        let mut k: usize = 1;
        while k < ring.len()
            invariant
                1 <= k <= ring@.len(),
                xs == eastings(ring@),
                ys == northings(ring@),
                min.x == min_of(xs.take(k as int)),
                min.y == min_of(ys.take(k as int)),
                max.x == max_of(xs.take(k as int)),
                max.y == max_of(ys.take(k as int)),
            decreases ring@.len() - k,
        {
            let c = ring[k];
            proof {
                assert(xs.take(k + 1).drop_last() =~= xs.take(k as int));
                assert(ys.take(k + 1).drop_last() =~= ys.take(k as int));
                assert(xs.take(k + 1).last() == c.x && ys.take(k + 1).last() == c.y);
            }
            if c.x < min.x {
                min.x = c.x;
            }
            if c.x > max.x {
                max.x = c.x;
            }
            if c.y < min.y {
                min.y = c.y;
            }
            if c.y > max.y {
                max.y = c.y;
            }
            k = k + 1;
        }
        proof {
            assert(xs.take(k as int) =~= xs);
            assert(ys.take(k as int) =~= ys);
        }
        Some(Rect { min, max })
    }
}

/// The integer square root of `n`.
pub fn integer_sqrt(n: u128) -> (r: u128)
    ensures
        r == floor_sqrt(n as int),
        is_floor_sqrt(n as int, r as int),
        r < 0x1_0000_0000_0000_0000,
{
    let mut lo: u128 = 0;
    let mut hi: u128 = 0x1_0000_0000_0000_0000;
    assert(0x1_0000_0000_0000_0000 * 0x1_0000_0000_0000_0000 > n) by (nonlinear_arith)
        requires
            n <= u128::MAX,
    ;
    while hi - lo > 1
        invariant
            lo < hi <= 0x1_0000_0000_0000_0000,
            lo * lo <= n < hi * hi,
        decreases hi - lo,
    {
        let mid: u128 = lo + (hi - lo) / 2;
        assert(mid * mid <= 0xffff_ffff_ffff_ffff * 0xffff_ffff_ffff_ffff) by (nonlinear_arith)
            requires
                0 <= mid <= 0xffff_ffff_ffff_ffff,
        ;
        if mid * mid <= n {
            lo = mid;
        } else {
            hi = mid;
        }
    }
    proof {
        lemma_floor_sqrt_unique(n as int, lo as int);
    }
    lo
}

/// The hexagon centred at (`center_x`, `center_y`) with circumradius
/// `size`, all in millimetres, as a closed ring of seven positions: six
/// vertices, starting 30 degrees from the centre and going round
/// counter-clockwise, then the first vertex again. The centre may lie
/// anywhere that leaves room for the vertices in the 128-bit range.
pub fn create_hexagon(center_x: i128, center_y: i128, size: u64) -> (hexagon: Polygon)
    requires
        size <= GEOMETRY_LIMIT,
        i128::MIN <= center_x - size,
        center_x + size <= i128::MAX,
        i128::MIN <= center_y - size,
        center_y + size <= i128::MAX,
    ensures
        ring_points(hexagon.exterior@) == hexagon_ring(
            center_x as int,
            center_y as int,
            size as int,
        ),
        hexagon.exterior@.len() == 7,
        hexagon.exterior@[0] == hexagon.exterior@[6],
        hexagon.interiors@.len() == 0,
        -2 * GEOMETRY_LIMIT <= center_x <= 2 * GEOMETRY_LIMIT && -2 * GEOMETRY_LIMIT <= center_y
            <= 2 * GEOMETRY_LIMIT ==> hexagon.within(3 * GEOMETRY_LIMIT),
{
    let s: u128 = size as u128;
    assert(3 * s * s <= 3 * (1000000000000000000 * 1000000000000000000)) by (nonlinear_arith)
        requires
            0 <= s <= 1000000000000000000,
    ;
    let root: u128 = integer_sqrt(3 * s * s);
    proof {
        if root > 2 * s {
            lemma_square_order(2 * s as int, root as int);
            assert((2 * s) * (2 * s) == 4 * (s * s)) by (nonlinear_arith);
            assert(3 * s * s == 3 * (s * s)) by (nonlinear_arith);
        }
    }
    let h: i128 = ((root + 1) / 2) as i128;
    let v: i128 = ((s + 1) / 2) as i128;
    let r: i128 = size as i128;
    let mut ring: Vec<Coord> = Vec::with_capacity(7);
    ring.push(Coord { x: center_x + h, y: center_y + v });
    ring.push(Coord { x: center_x, y: center_y + r });
    ring.push(Coord { x: center_x - h, y: center_y + v });
    ring.push(Coord { x: center_x - h, y: center_y - v });
    ring.push(Coord { x: center_x, y: center_y - r });
    ring.push(Coord { x: center_x + h, y: center_y - v });
    let first = ring[0];
    ring.push(first);
    assert(ring_points(ring@) =~= hexagon_ring(center_x as int, center_y as int, size as int));
    Polygon { exterior: ring, interiors: Vec::new() }
}

/// Same as [`create_hexagon`], with the centre as one value.
pub fn create_hexagon_from_point(center: &Coord, size: u64) -> (hexagon: Polygon)
    requires
        size <= GEOMETRY_LIMIT,
        i128::MIN <= center.x - size,
        center.x + size <= i128::MAX,
        i128::MIN <= center.y - size,
        center.y + size <= i128::MAX,
    ensures
        ring_points(hexagon.exterior@) == hexagon_ring(
            center.x as int,
            center.y as int,
            size as int,
        ),
        hexagon.exterior@.len() == 7,
        hexagon.exterior@[0] == hexagon.exterior@[6],
        hexagon.interiors@.len() == 0,
        -2 * GEOMETRY_LIMIT <= center.x <= 2 * GEOMETRY_LIMIT && -2 * GEOMETRY_LIMIT <= center.y
            <= 2 * GEOMETRY_LIMIT ==> hexagon.within(3 * GEOMETRY_LIMIT),
{
    create_hexagon(center.x, center.y, size)
}

} // verus!
