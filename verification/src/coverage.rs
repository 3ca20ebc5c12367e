use crate::cell::{cell_at, cell_of_point, HexCell, HexCellView};
use crate::constants::{
    lemma_table_bounds, row_pitch, row_pitch_den, CELL_RADIUS, GEOMETRY_LIMIT, MAX_ZOOM_LEVEL,
};
use crate::coord::Coord;
use crate::error::{ErrorView, N3gbError};
use crate::geometry::{integer_sqrt, lemma_square_order, ring_within};
use crate::grid::{cell_index, point_to_hex};
use crate::extent::{has_index, lemma_seen_push, mark_seen, seen_cells, views};
use std::collections::HashSet;
use crate::rounding::{
    div_ceil, div_round, lemma_ceil_div_bound, lemma_ceil_div_nearest, lemma_round_div_bound,
    round_div,
};
use vstd::prelude::*;

verus! {

/// A geometry to be indexed, with the positions that indexing reads. An
/// area enters only through its centroid, which the caller supplies.
#[derive(Debug, PartialEq)]
pub enum Geometry {
    Point(Coord),
    MultiPoint(Vec<Coord>),
    LineString(Vec<Coord>),
    MultiLineString(Vec<Vec<Coord>>),
    /// A polygon; `centroid` is `None` for a polygon that has none.
    Polygon { centroid: Option<Coord> },
    /// Several polygons, each with its centroid or `None`.
    MultiPolygon { centroids: Vec<Option<Coord>> },
    GeometryCollection(Vec<Geometry>),
    /// A geometry of a kind that is not indexed.
    Unsupported,
}

/// Message of the error for a geometry of a kind that is not indexed.
pub open spec fn unsupported_message() -> Seq<char> {
    "Unsupported geometry type"@
}

/// Square of the length of the segment from `a` to `b`.
pub open spec fn squared_length(a: Coord, b: Coord) -> int {
    (b.x - a.x) * (b.x - a.x) + (b.y - a.y) * (b.y - a.y)
}

/// Whether `n` steps of `num / den` millimetres each are together at least
/// as long as a segment whose squared length is `d2`.
pub open spec fn steps_reach(n: int, d2: int, num: int, den: int) -> bool {
    n >= 0 && (n * num) * (n * num) >= d2 * (den * den)
}

/// The least number of steps of `num / den` millimetres that are together
/// at least as long as a segment whose squared length is `d2`: the length
/// over the step, rounded up.
pub closed spec fn least_steps(d2: int, num: int, den: int) -> int {
    choose|n: int| #[trigger] steps_reach(n, d2, num, den) && !steps_reach(n - 1, d2, num, den)
}

/// Number of steps in which the segment from `a` to `b` is sampled: its
/// length over half the circumradius of the zoom level, rounded up. Half
/// the circumradius is `CELL_RADIUS[zoom] / row_pitch_den(zoom)`
/// millimetres.
pub open spec fn segment_steps(a: Coord, b: Coord, zoom: u8) -> int {
    least_steps(squared_length(a, b), CELL_RADIUS[zoom as int] as int, row_pitch_den(zoom as int))
}

/// Where some number of steps reaches, there is a least one.
proof fn lemma_least_below(n: int, d2: int, num: int, den: int)
    requires
        steps_reach(n, d2, num, den),
    ensures
        exists|m: int| #[trigger] steps_reach(m, d2, num, den) && !steps_reach(m - 1, d2, num, den),
    decreases n,
{
    if steps_reach(n - 1, d2, num, den) {
        lemma_least_below(n - 1, d2, num, den);
    }
}

/// The least number of steps reaches, and one step fewer does not. No step
/// is needed exactly where the segment has no length.
pub proof fn lemma_least_steps_reaches(d2: int, num: int, den: int)
    requires
        num > 0,
    ensures
        steps_reach(least_steps(d2, num, den), d2, num, den),
        !steps_reach(least_steps(d2, num, den) - 1, d2, num, den),
        least_steps(d2, num, den) >= 0,
        least_steps(d2, num, den) == 0 <==> d2 * (den * den) <= 0,
{
    let far: int = if d2 * (den * den) > 0 {
        d2 * (den * den)
    } else {
        0
    };
    assert((far * num) * (far * num) >= far) by (nonlinear_arith)
        requires
            far >= 0,
            num >= 1,
    ;
    assert(steps_reach(far, d2, num, den));
    lemma_least_below(far, d2, num, den);
    let n = least_steps(d2, num, den);
    assert(steps_reach(n, d2, num, den) && !steps_reach(n - 1, d2, num, den));
    assert((0 * num) * (0 * num) == 0) by (nonlinear_arith);
    if d2 * (den * den) <= 0 {
        assert(steps_reach(0, d2, num, den));
        if n > 0 {
            lemma_steps_reach_monotonic(0, n - 1, d2, num, den);
        }
    }
}

/// The number of steps of a segment reaches its end, and one step fewer
/// does not. A segment has no steps exactly where its ends are the same
/// position.
pub proof fn lemma_segment_steps(a: Coord, b: Coord, zoom: u8)
    requires
        zoom <= MAX_ZOOM_LEVEL,
    ensures
        segment_steps(a, b, zoom) >= 0,
        steps_reach(
            segment_steps(a, b, zoom),
            squared_length(a, b),
            CELL_RADIUS[zoom as int] as int,
            row_pitch_den(zoom as int),
        ),
        !steps_reach(
            segment_steps(a, b, zoom) - 1,
            squared_length(a, b),
            CELL_RADIUS[zoom as int] as int,
            row_pitch_den(zoom as int),
        ),
        segment_steps(a, b, zoom) == 0 <==> a == b,
{
    lemma_table_bounds(zoom as int);
    let num = CELL_RADIUS[zoom as int] as int;
    let den = row_pitch_den(zoom as int);
    let d2 = squared_length(a, b);
    let dx = b.x - a.x;
    let dy = b.y - a.y;
    lemma_least_steps_reaches(d2, num, den);
    assert(dx * dx >= 0 && dy * dy >= 0 && (dx != 0 ==> dx * dx > 0) && (dy != 0 ==> dy * dy
        > 0)) by (nonlinear_arith);
    assert(den * den > 0) by (nonlinear_arith)
        requires
            den > 0,
    ;
    assert(d2 > 0 ==> d2 * (den * den) > 0) by (nonlinear_arith)
        requires
            den * den > 0,
    ;
    assert(d2 == 0 ==> d2 * (den * den) == 0) by (nonlinear_arith);
}

/// More steps reach at least as far.
pub proof fn lemma_steps_reach_monotonic(n: int, m: int, d2: int, num: int, den: int)
    requires
        num > 0,
        n <= m,
        steps_reach(n, d2, num, den),
    ensures
        steps_reach(m, d2, num, den),
{
    assert((n * num) * (n * num) <= (m * num) * (m * num)) by (nonlinear_arith)
        requires
            0 <= n <= m,
            num > 0,
    ;
}

/// A number of steps that reaches, while one fewer does not, is the least.
pub proof fn lemma_least_steps(n: int, d2: int, num: int, den: int)
    requires
        num > 0,
        steps_reach(n, d2, num, den),
        !steps_reach(n - 1, d2, num, den),
    ensures
        least_steps(d2, num, den) == n,
{
    let m = least_steps(d2, num, den);
    assert(steps_reach(m, d2, num, den) && !steps_reach(m - 1, d2, num, den));
    if m < n {
        lemma_steps_reach_monotonic(m, n - 1, d2, num, den);
    } else if n < m {
        lemma_steps_reach_monotonic(n, m - 1, d2, num, den);
    }
}

/// How far along a difference `d` sample `i` of `steps` lies: `i / steps`
/// of it, to the nearest millimetre; nothing where there are no steps.
pub open spec fn sample_offset(d: int, steps: int, i: int) -> int {
    if steps == 0 {
        0
    } else {
        round_div(i * d, steps)
    }
}

/// Sample `i` of `steps` on the segment from `a` to `b`.
pub open spec fn sample(a: Coord, b: Coord, steps: int, i: int) -> (int, int) {
    (a.x + sample_offset(b.x - a.x, steps, i), a.y + sample_offset(b.y - a.y, steps, i))
}

/// `cells`, and after them the cell that holds (`x`, `y`) unless its row
/// and column are already there.
pub open spec fn with_sample(cells: Seq<HexCellView>, x: int, y: int, zoom: u8) -> Seq<
    HexCellView,
> {
    let (row, col) = cell_index(x, y, zoom as int);
    if has_index(cells, row, col) {
        cells
    } else {
        cells.push(cell_at(row, col, zoom))
    }
}

/// `cells` after the first `n` samples of the segment from `a` to `b` have
/// been taken in.
pub open spec fn segment_cells(
    cells: Seq<HexCellView>,
    a: Coord,
    b: Coord,
    steps: int,
    n: int,
    zoom: u8,
) -> Seq<HexCellView>
    decreases n,
{
    if n <= 0 {
        cells
    } else {
        let (x, y) = sample(a, b, steps, n - 1);
        with_sample(segment_cells(cells, a, b, steps, n - 1, zoom), x, y, zoom)
    }
}

/// The cells that the first `n` segments of `line` pass through: each
/// segment is sampled from its start to its end in steps of at most half a
/// circumradius, and each cell is listed once, where it is first met.
pub open spec fn line_cells(line: Seq<Coord>, zoom: u8, n: int) -> Seq<HexCellView>
    decreases n,
{
    if n <= 0 {
        Seq::empty()
    } else {
        let steps = segment_steps(line[n - 1], line[n], zoom);
        segment_cells(line_cells(line, zoom, n - 1), line[n - 1], line[n], steps, steps + 1, zoom)
    }
}

/// What sampling a whole line gives: its cells, or `InvalidZoomLevel` at a
/// zoom level above 15.
pub open spec fn line_result(line: Seq<Coord>, zoom: u8) -> Result<Seq<HexCellView>, ErrorView> {
    if zoom > MAX_ZOOM_LEVEL {
        Err(ErrorView::InvalidZoomLevel(zoom))
    } else {
        Ok(line_cells(line, zoom, line.len() - 1))
    }
}

/// What indexing one point gives.
pub open spec fn point_result(c: Coord, zoom: u8) -> Result<HexCellView, ErrorView> {
    if zoom > MAX_ZOOM_LEVEL {
        Err(ErrorView::InvalidZoomLevel(zoom))
    } else {
        Ok(cell_of_point(c.x as int, c.y as int, zoom))
    }
}

/// What indexing the first `n` of `points` gives: a cell for each, in
/// order, or the first error.
pub open spec fn points_result(points: Seq<Coord>, zoom: u8, n: int) -> Result<
    Seq<HexCellView>,
    ErrorView,
>
    decreases n,
{
    if n <= 0 {
        Ok(Seq::empty())
    } else {
        match (points_result(points, zoom, n - 1), point_result(points[n - 1], zoom)) {
            (Err(e), _) => Err(e),
            (Ok(_), Err(e)) => Err(e),
            (Ok(cells), Ok(c)) => Ok(cells.push(c)),
        }
    }
}

/// What indexing the first `n` of `centroids` gives: a cell for each that
/// is there, in order, or the first error.
pub open spec fn centroids_result(centroids: Seq<Option<Coord>>, zoom: u8, n: int) -> Result<
    Seq<HexCellView>,
    ErrorView,
>
    decreases n,
{
    if n <= 0 {
        Ok(Seq::empty())
    } else {
        match (centroids_result(centroids, zoom, n - 1), centroids[n - 1]) {
            (Err(e), _) => Err(e),
            (Ok(cells), None) => Ok(cells),
            (Ok(cells), Some(c)) => match point_result(c, zoom) {
                Err(e) => Err(e),
                Ok(cell) => Ok(cells.push(cell)),
            },
        }
    }
}

/// What sampling the first `n` of `lines` gives: the cells of each line,
/// one line after the other, or the first error.
pub open spec fn lines_result(lines: Seq<Vec<Coord>>, zoom: u8, n: int) -> Result<
    Seq<HexCellView>,
    ErrorView,
>
    decreases n,
{
    if n <= 0 {
        Ok(Seq::empty())
    } else {
        match (lines_result(lines, zoom, n - 1), line_result(lines[n - 1]@, zoom)) {
            (Err(e), _) => Err(e),
            (Ok(_), Err(e)) => Err(e),
            (Ok(cells), Ok(more)) => Ok(cells + more),
        }
    }
}

/// What indexing a geometry gives: a cell for a point and for each point
/// of several; the sampled cells of a line, and of each line of several;
/// a cell for the centroid of a polygon, and of each polygon of several,
/// none for a polygon without centroid; for a collection, the cells of
/// its members in order. The first error ends it: `InvalidZoomLevel` from
/// a point, a line or a centroid at a zoom level above 15, and
/// `GeometryParseError` for a geometry of any other kind.
pub open spec fn geometry_result(g: Geometry, zoom: u8) -> Result<Seq<HexCellView>, ErrorView>
    decreases g,
{
    match g {
        Geometry::Point(c) => points_result(seq![c], zoom, 1),
        Geometry::MultiPoint(points) => points_result(points@, zoom, points@.len() as int),
        Geometry::LineString(line) => line_result(line@, zoom),
        Geometry::MultiLineString(lines) => lines_result(lines@, zoom, lines@.len() as int),
        Geometry::Polygon { centroid } => centroids_result(seq![centroid], zoom, 1),
        Geometry::MultiPolygon { centroids } => centroids_result(
            centroids@,
            zoom,
            centroids@.len() as int,
        ),
        Geometry::GeometryCollection(members) => members_result(
            members,
            zoom,
            members@.len() as int,
        ),
        Geometry::Unsupported => Err(ErrorView::GeometryParseError(unsupported_message())),
    }
}

/// What indexing the first `n` of `members` gives: the cells of each, one
/// member after the other, or the first error.
pub open spec fn members_result(members: Vec<Geometry>, zoom: u8, n: int) -> Result<
    Seq<HexCellView>,
    ErrorView,
>
    decreases members, n,
{
    if n <= 0 || n > members@.len() {
        Ok(Seq::empty())
    } else {
        match (members_result(members, zoom, n - 1), geometry_result(members@[n - 1], zoom)) {
            (Err(e), _) => Err(e),
            (Ok(_), Err(e)) => Err(e),
            (Ok(cells), Ok(more)) => Ok(cells + more),
        }
    }
}

/// Whether every position of each of `lines` is within the geometry limit.
pub open spec fn lines_within(lines: Seq<Vec<Coord>>) -> bool {
    forall|k: int| 0 <= k < lines.len() ==> ring_within((#[trigger] lines[k])@, GEOMETRY_LIMIT as int)
}

/// Whether every centroid that is there is within the geometry limit.
pub open spec fn centroids_within(centroids: Seq<Option<Coord>>) -> bool {
    forall|k: int|
        0 <= k < centroids.len() ==> ((#[trigger] centroids[k]) matches Some(c) ==> ring_within(
            seq![c],
            GEOMETRY_LIMIT as int,
        ))
}

/// Whether every position of `g` is within the geometry limit.
pub open spec fn geometry_within(g: Geometry) -> bool
    decreases g,
{
    match g {
        Geometry::Point(c) => ring_within(seq![c], GEOMETRY_LIMIT as int),
        Geometry::MultiPoint(points) => ring_within(points@, GEOMETRY_LIMIT as int),
        Geometry::LineString(line) => ring_within(line@, GEOMETRY_LIMIT as int),
        Geometry::MultiLineString(lines) => lines_within(lines@),
        Geometry::Polygon { centroid } => centroids_within(seq![centroid]),
        Geometry::MultiPolygon { centroids } => centroids_within(centroids@),
        Geometry::GeometryCollection(members) => members_within(members, members@.len() as int),
        Geometry::Unsupported => true,
    }
}

/// Whether every position of the first `n` of `members` is within the
/// geometry limit.
pub open spec fn members_within(members: Vec<Geometry>, n: int) -> bool
    decreases members, n,
{
    if n <= 0 || n > members@.len() {
        true
    } else {
        members_within(members, n - 1) && geometry_within(members@[n - 1])
    }
}

/// The mathematical value of the result of indexing.
pub open spec fn result_view(r: Result<Vec<HexCell>, N3gbError>) -> Result<
    Seq<HexCellView>,
    ErrorView,
> {
    match r {
        Ok(cells) => Ok(views(cells@)),
        Err(e) => Err(e@),
    }
}

/// Whether every one of `cells` is sound and no two are in the same row
/// and column.
pub open spec fn sampled(cells: Seq<HexCellView>) -> bool {
    &&& forall|i: int| 0 <= i < cells.len() ==> (#[trigger] cells[i]).wf()
    &&& forall|i: int, j: int|
        0 <= i < j < cells.len() ==> !(cells[i].row == cells[j].row && cells[i].col
            == cells[j].col)
}

/// A product of numbers that are not negative is squared factor by factor,
/// and squaring keeps their order.
proof fn lemma_product_square(x: int, y: int, limit: int)
    requires
        0 <= x,
        0 <= y,
    ensures
        (x * y) * (x * y) == (x * x) * (y * y),
        x * y <= limit ==> (x * y) * (x * y) <= limit * limit,
        0 <= limit < x * y ==> limit * limit < (x * y) * (x * y),
{
    assert((x * y) * (x * y) == (x * x) * (y * y)) by (nonlinear_arith);
    assert(0 <= x * y) by (nonlinear_arith)
        requires
            0 <= x,
            0 <= y,
    ;
    let p = x * y;
    if p <= limit {
        assert(p * p <= limit * limit) by (nonlinear_arith)
            requires
                0 <= p <= limit,
        ;
    }
    if 0 <= limit < p {
        assert(limit * limit < p * p) by (nonlinear_arith)
            requires
                0 <= limit < p,
        ;
    }
}

/// Between two whole multiples of the step divisor, whether a distance
/// `reach` is at least the length of a segment is decided by the part of it
/// beyond the lower multiple.
proof fn lemma_reach_between(reach: int, floor: int, den: int, d2: int)
    requires
        den > 0,
        floor >= 0,
        floor * den < reach,
    ensures
        reach * reach >= d2 * (den * den) <==> (reach - floor * den) * (reach - floor * den) >= den
            * ((d2 - floor * floor) * den - 2 * floor * (reach - floor * den)),
{
    let r = reach - floor * den;
    let e = d2 - floor * floor;
    assert(reach * reach - d2 * (den * den) == r * r - den * (e * den - 2 * floor * r))
        by (nonlinear_arith)
        requires
            r == reach - floor * den,
            e == d2 - floor * floor,
    ;
}

/// Number of steps in which the segment from `a` to `b` is sampled.
pub fn steps_between(a: &Coord, b: &Coord, zoom: u8) -> (steps: i128)
    requires
        zoom <= MAX_ZOOM_LEVEL,
        ring_within(seq![*a, *b], GEOMETRY_LIMIT as int),
    ensures
        steps == segment_steps(*a, *b, zoom),
        0 <= steps <= 3000000000000000001,
{
    assert(seq![*a, *b][0] == *a && seq![*a, *b][1] == *b);
    let dx: i128 = b.x - a.x;
    let dy: i128 = b.y - a.y;
    assert(0 <= dx * dx <= 4000000000000000000000000000000000000) by (nonlinear_arith)
        requires
            -2000000000000000000 <= dx <= 2000000000000000000,
    ;
    assert(0 <= dy * dy <= 4000000000000000000000000000000000000) by (nonlinear_arith)
        requires
            -2000000000000000000 <= dy <= 2000000000000000000,
    ;
    let squared: i128 = dx * dx + dy * dy;
    let root: i128 = integer_sqrt(squared as u128) as i128;
    proof {
        if root >= 3000000000000000000 {
            if root > 3000000000000000000 {
                lemma_square_order(3000000000000000000, root as int);
            }
            assert(3000000000000000000int * 3000000000000000000int
                == 9000000000000000000000000000000000000int) by (nonlinear_arith);
        }
        assert(root * root <= squared);
    }
    let exact: bool = root * root == squared;
    let length: i128 = if exact {
        root
    } else {
        root + 1
    };
    let (_, pitch_den) = row_pitch(zoom);
    let den: i128 = pitch_den as i128;
    let num: i128 = CELL_RADIUS[zoom as usize] as i128;
    let ghost d2 = squared as int;
    proof {
        lemma_table_bounds(zoom as int);
        assert(0 < den < num);
        assert(length * den <= 3000000000000000001 * 20000000000000) by (nonlinear_arith)
            requires
                0 <= length <= 3000000000000000001,
                0 < den <= 20000000000000,
        ;
        assert(0 <= length * den <= length * num) by (nonlinear_arith)
            requires
                0 <= length,
                0 < den <= num,
        ;
        lemma_ceil_div_bound(length * den, num as int, length as int);
        lemma_ceil_div_nearest(length * den, num as int);
    }
    let most: i128 = div_ceil((length * den) as u128, num as u128) as i128;
    proof {
        // `most` steps reach: they are at least `length * den`, whose square
        // is at least the squared length times the squared divisor.
        lemma_product_square(length as int, den as int, most * num);
        assert(length * length >= d2) by {
            if !exact {
                assert(d2 < (root + 1) * (root + 1));
            }
        }
        assert((length * length) * (den * den) >= d2 * (den * den)) by (nonlinear_arith)
            requires
                length * length >= d2,
                den > 0,
        ;
        assert(0 <= most * num) by (nonlinear_arith)
            requires
                0 <= most,
                0 < num,
        ;
        assert(steps_reach(most as int, d2, num as int, den as int));
    }
    if most == 0 {
        proof {
            lemma_least_steps(0, d2, num as int, den as int);
        }
        return 0;
    }
    let fewer: i128 = most - 1;
    assert(0 <= fewer * num <= 3000000000000000001 * 28290163190291665) by (nonlinear_arith)
        requires
            0 <= fewer <= 3000000000000000001,
            0 < num <= 28290163190291665,
    ;
    let reach: i128 = fewer * num;
    assert(0 <= root * den <= 3000000000000000001 * 20000000000000) by (nonlinear_arith)
        requires
            0 <= root <= 3000000000000000001,
            0 < den <= 20000000000000,
    ;
    let base: i128 = root * den;
    proof {
        assert((root + 1) * den == root * den + den) by (nonlinear_arith);
        assert((fewer - 1) * num == fewer * num - num) by (nonlinear_arith);
    }
    if exact || reach <= base {
        proof {
            // One step fewer falls short of the segment.
            if exact {
                lemma_product_square(length as int, den as int, reach as int);
                assert(reach * reach < (length * length) * (den * den));
            } else {
                lemma_product_square(root as int, den as int, reach as int);
                assert((root * root) * (den * den) < d2 * (den * den)) by (nonlinear_arith)
                    requires
                        root * root < d2,
                        den > 0,
                ;
            }
            assert(!steps_reach(fewer as int, d2, num as int, den as int));
            lemma_least_steps(most as int, d2, num as int, den as int);
        }
        return most;
    }
    let beyond: i128 = reach - base;
    let excess: i128 = squared - root * root;
    proof {
        assert(0 < beyond < den);
        assert((root + 1) * (root + 1) == root * root + 2 * root + 1) by (nonlinear_arith);
        assert(1 <= excess <= 2 * root);
        assert(0 <= excess * den <= 6000000000000000002 * 20000000000000) by (nonlinear_arith)
            requires
                0 <= excess <= 6000000000000000002,
                0 < den <= 20000000000000,
        ;
        assert(0 <= root * beyond <= 3000000000000000001 * 20000000000000) by (nonlinear_arith)
            requires
                0 <= root <= 3000000000000000001,
                0 <= beyond <= 20000000000000,
        ;
        assert(0 < beyond * beyond < den * den && den * den <= 20000000000000 * 20000000000000)
            by (nonlinear_arith)
            requires
                0 < beyond < den,
                den <= 20000000000000,
        ;
        lemma_reach_between(reach as int, root as int, den as int, d2);
    }
    let short: i128 = excess * den - 2 * (root * beyond);
    proof {
        assert(2 * root * beyond == 2 * (root * beyond)) by (nonlinear_arith);
        if short <= 0 {
            assert(den * short <= 0) by (nonlinear_arith)
                requires
                    den > 0,
                    short <= 0,
            ;
        } else if short >= den {
            assert(den * short >= den * den) by (nonlinear_arith)
                requires
                    den > 0,
                    short >= den,
            ;
        } else {
            assert(0 < short * den < den * den) by (nonlinear_arith)
                requires
                    0 < short < den,
            ;
            assert(short * den == den * short) by (nonlinear_arith);
        }
    }
    let reaches: bool = if short <= 0 {
        true
    } else if short >= den {
        false
    } else {
        beyond * beyond >= short * den
    };
    proof {
        assert(reaches == steps_reach(fewer as int, d2, num as int, den as int));
    }
    if reaches {
        proof {
            // Two steps fewer end before the lower multiple, short of the
            // segment.
            if fewer >= 1 {
                let two_fewer = (fewer - 1) * num;
                assert(0 <= two_fewer) by (nonlinear_arith)
                    requires
                        fewer >= 1,
                        num > 0,
                        two_fewer == (fewer - 1) * num,
                ;
                assert(two_fewer < base);
                lemma_product_square(root as int, den as int, two_fewer);
                assert((root * root) * (den * den) < d2 * (den * den)) by (nonlinear_arith)
                    requires
                        root * root < d2,
                        den > 0,
                ;
            }
            assert(!steps_reach(fewer - 1, d2, num as int, den as int));
            lemma_least_steps(fewer as int, d2, num as int, den as int);
        }
        fewer
    } else {
        proof {
            lemma_least_steps(most as int, d2, num as int, den as int);
        }
        most
    }
}

/// How far along a difference `d` sample `i` of `steps` lies.
fn offset_at(d: i128, steps: i128, i: i128) -> (o: i128)
    requires
        -2000000000000000000 <= d <= 2000000000000000000,
        0 <= i <= steps <= 3000000000000000001,
    ensures
        o == sample_offset(d as int, steps as int, i as int),
        -2000000000000000000 <= o <= 2000000000000000000,
{
    if steps == 0 {
        0
    } else {
        proof {
            let limit: int = if d >= 0 {
                d as int
            } else {
                -d
            };
            assert(-(limit * steps) <= i * d <= limit * steps) by (nonlinear_arith)
                requires
                    0 <= i <= steps,
                    -limit <= d <= limit,
            ;
            assert(limit * steps <= 2000000000000000000 * 3000000000000000001) by (nonlinear_arith)
                requires
                    0 <= limit <= 2000000000000000000,
                    0 <= steps <= 3000000000000000001,
            ;
            lemma_round_div_bound(i * d, steps as int, limit);
        }
        div_round(i * d, steps)
    }
}

impl HexCell {
    /// The cells along `line`: every segment is sampled from its start to
    /// its end in steps of at most half a circumradius, and each cell is
    /// listed once, where it is first met. No cells for a line of fewer
    /// than two positions. A zoom level above 15 is rejected.
    pub fn from_line_string_bng(line: &Vec<Coord>, zoom: u8) -> (r: Result<Vec<HexCell>, N3gbError>)
        requires
            ring_within(line@, GEOMETRY_LIMIT as int),
        ensures
            result_view(r) == line_result(line@, zoom),
            r matches Ok(cells) ==> sampled(views(cells@)),
    {
        if zoom > MAX_ZOOM_LEVEL {
            return Err(N3gbError::InvalidZoomLevel(zoom));
        }
        let mut cells: Vec<HexCell> = Vec::new();
        let mut seen: HashSet<i128> = HashSet::new();
        let mut s: usize = 0;
        assert(views(cells@) =~= line_cells(line@, zoom, 0));
        let n = line.len();
        if n < 2 {
            return Ok(cells);
        }
        while s < n - 1
            invariant
                zoom <= MAX_ZOOM_LEVEL,
                n == line@.len(),
                s + 1 <= n,
                ring_within(line@, GEOMETRY_LIMIT as int),
                views(cells@) == line_cells(line@, zoom, s as int),
                sampled(views(cells@)),
                seen_cells(seen@, views(cells@)),
            decreases line@.len() - s,
        {
            let a = line[s];
            let b = line[s + 1];
            assert(ring_within(seq![a, b], GEOMETRY_LIMIT as int)) by {
                assert(a == line@[s as int] && b == line@[s + 1]);
            }
            let steps = steps_between(&a, &b, zoom);
            let ghost start = views(cells@);
            let mut i: i128 = 0;
            while i <= steps
                invariant
                    zoom <= MAX_ZOOM_LEVEL,
                    0 <= i <= steps + 1,
                    steps <= 3000000000000000001,
                    -GEOMETRY_LIMIT <= a.x <= GEOMETRY_LIMIT,
                    -GEOMETRY_LIMIT <= a.y <= GEOMETRY_LIMIT,
                    -GEOMETRY_LIMIT <= b.x <= GEOMETRY_LIMIT,
                    -GEOMETRY_LIMIT <= b.y <= GEOMETRY_LIMIT,
                    views(cells@) == segment_cells(start, a, b, steps as int, i as int, zoom),
                    sampled(views(cells@)),
                    seen_cells(seen@, views(cells@)),
                decreases steps + 1 - i,
            {
                let x = a.x + offset_at(b.x - a.x, steps, i);
                let y = a.y + offset_at(b.y - a.y, steps, i);
                let (row, col) = match point_to_hex(&Coord { x, y }, zoom) {
                    Ok(index) => index,
                    Err(_) => (0, 0),
                };
                let ghost seen_before = seen@;
                if mark_seen(&mut seen, row, col, Ghost(views(cells@))) {
                    let ghost before_push = views(cells@);
                    cells.push(HexCell::at_index(row, col, zoom));
                    proof {
                        let added = cell_at(row as int, col as int, zoom);
                        assert(views(cells@) =~= before_push.push(added));
                        lemma_seen_push(seen_before, before_push, added);
                    }
                }
                i = i + 1;
            }
            s = s + 1;
        }
        Ok(cells)
    }

    /// The cells of a geometry: see [`geometry_result`].
    pub fn from_geometry(geom: &Geometry, zoom: u8) -> (r: Result<Vec<HexCell>, N3gbError>)
        requires
            geometry_within(*geom),
        ensures
            result_view(r) == geometry_result(*geom, zoom),
        decreases geom,
    {
        match geom {
            Geometry::Point(c) => {
                assert(seq![*c][0] == *c);
                let cell = match HexCell::from_bng(c, zoom) {
                    Ok(cell) => cell,
                    Err(e) => { return Err(e); },
                };
                let mut cells: Vec<HexCell> = Vec::new();
                cells.push(cell);
                assert(points_result(seq![*c], zoom, 0) == Ok::<_, ErrorView>(
                    Seq::<HexCellView>::empty(),
                ));
                assert(views(cells@) =~= Seq::<HexCellView>::empty().push(cell@));
                Ok(cells)
            },
            Geometry::MultiPoint(points) => {
                let mut cells: Vec<HexCell> = Vec::new();
                let mut k: usize = 0;
                assert(views(cells@) =~= Seq::empty());
                while k < points.len()
                    invariant
                        k <= points@.len(),
                        *geom == Geometry::MultiPoint(*points),
                        ring_within(points@, GEOMETRY_LIMIT as int),
                        points_result(points@, zoom, k as int) == Ok::<_, ErrorView>(views(cells@)),
                    decreases points@.len() - k,
                {
                    let cell = match HexCell::from_bng(&points[k], zoom) {
                        Ok(cell) => cell,
                        Err(e) => {
                            proof {
                                assert(points_result(points@, zoom, k + 1) == Err::<
                                    Seq<HexCellView>,
                                    _,
                                >(e@));
                                lemma_points_error(points@, zoom, k + 1, points@.len() as int);
                            }
                            return Err(e);
                        },
                    };
                    let ghost before_push = views(cells@);
                    cells.push(cell);
                    assert(views(cells@) =~= before_push.push(cell@));
                    k = k + 1;
                }
                Ok(cells)
            },
            Geometry::LineString(line) => HexCell::from_line_string_bng(line, zoom),
            Geometry::MultiLineString(lines) => {
                let mut cells: Vec<HexCell> = Vec::new();
                let mut k: usize = 0;
                assert(views(cells@) =~= Seq::empty());
                while k < lines.len()
                    invariant
                        k <= lines@.len(),
                        *geom == Geometry::MultiLineString(*lines),
                        lines_within(lines@),
                        lines_result(lines@, zoom, k as int) == Ok::<_, ErrorView>(views(cells@)),
                    decreases lines@.len() - k,
                {
                    let mut more = match HexCell::from_line_string_bng(&lines[k], zoom) {
                        Ok(more) => more,
                        Err(e) => {
                            proof {
                                assert(line_result(lines@[k as int]@, zoom) == Err::<
                                    Seq<HexCellView>,
                                    _,
                                >(e@));
                                assert(lines_result(lines@, zoom, k + 1) == Err::<
                                    Seq<HexCellView>,
                                    _,
                                >(e@));
                                lemma_lines_error(lines@, zoom, k + 1, lines@.len() as int);
                            }
                            return Err(e);
                        },
                    };
                    let ghost so_far = views(cells@);
                    let ghost added = views(more@);
                    cells.append(&mut more);
                    assert(views(cells@) =~= so_far + added);
                    k = k + 1;
                }
                Ok(cells)
            },
            Geometry::Polygon { centroid } => {
                let mut cells: Vec<HexCell> = Vec::new();
                assert(views(cells@) =~= Seq::empty());
                assert(centroids_result(seq![*centroid], zoom, 0) == Ok::<_, ErrorView>(
                    Seq::<HexCellView>::empty(),
                ));
                assert(seq![*centroid][0] == *centroid);
                match centroid {
                    None => Ok(cells),
                    Some(c) => {
                        assert(seq![*c][0] == *c);
                        let cell = match HexCell::from_bng(c, zoom) {
                            Ok(cell) => cell,
                            Err(e) => { return Err(e); },
                        };
                        cells.push(cell);
                        assert(views(cells@) =~= Seq::<HexCellView>::empty().push(cell@));
                        Ok(cells)
                    },
                }
            },
            Geometry::MultiPolygon { centroids } => {
                let mut cells: Vec<HexCell> = Vec::new();
                let mut k: usize = 0;
                assert(views(cells@) =~= Seq::empty());
                while k < centroids.len()
                    invariant
                        k <= centroids@.len(),
                        *geom == (Geometry::MultiPolygon { centroids: *centroids }),
                        centroids_within(centroids@),
                        centroids_result(centroids@, zoom, k as int) == Ok::<_, ErrorView>(
                            views(cells@),
                        ),
                    decreases centroids@.len() - k,
                {
                    match &centroids[k] {
                        None => {},
                        Some(c) => {
                            assert(seq![*c][0] == *c);
                            let cell = match HexCell::from_bng(c, zoom) {
                                Ok(cell) => cell,
                                Err(e) => {
                                    proof {
                                        assert(centroids_result(centroids@, zoom, k + 1) == Err::<
                                            Seq<HexCellView>,
                                            _,
                                        >(e@));
                                        lemma_centroids_error(
                                            centroids@,
                                            zoom,
                                            k + 1,
                                            centroids@.len() as int,
                                        );
                                    }
                                    return Err(e);
                                },
                            };
                            let ghost before_push = views(cells@);
                            cells.push(cell);
                            assert(views(cells@) =~= before_push.push(cell@));
                        },
                    }
                    k = k + 1;
                }
                Ok(cells)
            },
            Geometry::GeometryCollection(members) => {
                let mut cells: Vec<HexCell> = Vec::new();
                let mut k: usize = 0;
                assert(views(cells@) =~= Seq::empty());
                while k < members.len()
                    invariant
                        k <= members@.len(),
                        *geom == Geometry::GeometryCollection(*members),
                        members_within(*members, members@.len() as int),
                        members_result(*members, zoom, k as int) == Ok::<_, ErrorView>(
                            views(cells@),
                        ),
                    decreases members@.len() - k,
                {
                    proof {
                        assert(geom->GeometryCollection_0 == *members);
                        vstd::std_specs::vec::axiom_vec_index_decreases(*members, k as int);
                        lemma_member_within(*members, members@.len() as int, k as int);
                    }
                    let mut more = match HexCell::from_geometry(&members[k], zoom) {
                        Ok(more) => more,
                        Err(e) => {
                            proof {
                                lemma_members_error(*members, zoom, k + 1, members@.len() as int);
                            }
                            return Err(e);
                        },
                    };
                    let ghost so_far = views(cells@);
                    let ghost added = views(more@);
                    cells.append(&mut more);
                    assert(views(cells@) =~= so_far + added);
                    k = k + 1;
                }
                Ok(cells)
            },
            Geometry::Unsupported => Err(
                N3gbError::GeometryParseError("Unsupported geometry type".to_owned()),
            ),
        }
    }
}

/// An error among the first `n` points is the result for any more.
proof fn lemma_points_error(points: Seq<Coord>, zoom: u8, n: int, m: int)
    requires
        0 <= n <= m,
        points_result(points, zoom, n) is Err,
    ensures
        points_result(points, zoom, m) == points_result(points, zoom, n),
    decreases m - n,
{
    if n < m {
        lemma_points_error(points, zoom, n, m - 1);
    }
}

/// An error among the first `n` lines is the result for any more.
proof fn lemma_lines_error(lines: Seq<Vec<Coord>>, zoom: u8, n: int, m: int)
    requires
        0 <= n <= m,
        lines_result(lines, zoom, n) is Err,
    ensures
        lines_result(lines, zoom, m) == lines_result(lines, zoom, n),
    decreases m - n,
{
    if n < m {
        lemma_lines_error(lines, zoom, n, m - 1);
    }
}

/// An error among the first `n` centroids is the result for any more.
proof fn lemma_centroids_error(centroids: Seq<Option<Coord>>, zoom: u8, n: int, m: int)
    requires
        0 <= n <= m,
        centroids_result(centroids, zoom, n) is Err,
    ensures
        centroids_result(centroids, zoom, m) == centroids_result(centroids, zoom, n),
    decreases m - n,
{
    if n < m {
        lemma_centroids_error(centroids, zoom, n, m - 1);
    }
}

/// An error among the first `n` members is the result for any more.
proof fn lemma_members_error(members: Vec<Geometry>, zoom: u8, n: int, m: int)
    requires
        0 <= n <= m <= members@.len(),
        members_result(members, zoom, n) is Err,
    ensures
        members_result(members, zoom, m) == members_result(members, zoom, n),
    decreases m - n,
{
    if n < m {
        lemma_members_error(members, zoom, n, m - 1);
    }
}

/// Each of the first `n` members of a collection within the limit is
/// within the limit.
proof fn lemma_member_within(members: Vec<Geometry>, n: int, k: int)
    requires
        0 <= k < n <= members@.len(),
        members_within(members, n),
    ensures
        geometry_within(members@[k]),
    decreases n,
{
    if k < n - 1 {
        lemma_member_within(members, n - 1, k);
    }
}

} // verus!
