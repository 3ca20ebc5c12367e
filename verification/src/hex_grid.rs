use crate::builder::HexGridBuilder;
use crate::cell::{HexCell, HexCellView};
use crate::constants::{cell_radius, GEOMETRY_LIMIT, MAX_ZOOM_LEVEL};
use crate::coord::Coord;
use crate::extent::{
    distinct_ids, extent_cells, generate_cells_for_extent, grid_cell, grid_cells,
    lemma_id_is_index, lemma_seen_push, mark_seen, seen_cells, views,
};
use crate::geometry::{
    bounding_box, eastings, hexagon_ring, lemma_min_max, max_of, min_of, northings, ring_points,
    ring_within, rings_points, MultiPolygon, Polygon, Rect,
};
use crate::grid::{cell_index, point_to_hex};
use crate::spatial::{intersects, polygons_intersect};
use std::collections::HashSet;
use vstd::prelude::*;

verus! {

/// Whether `polygon` and the outline of cell `c` share a point.
pub open spec fn touches(polygon: Polygon, c: HexCellView) -> bool {
    polygons_intersect(
        ring_points(polygon.exterior@),
        rings_points(polygon.interiors@),
        hexagon_ring(c.x, c.y, cell_radius(c.zoom_level as int)),
        Seq::empty(),
    )
}

/// [`touches`] as a predicate on cells.
pub open spec fn touching(polygon: Polygon) -> spec_fn(HexCellView) -> bool {
    |c: HexCellView| touches(polygon, c)
}

/// The cells that cover a polygon: of the cells that cover the rectangle
/// round its outer ring, those whose outline shares a point with the
/// polygon, in the same order. None where the outer ring is empty.
pub open spec fn polygon_cells(polygon: Polygon, zoom: u8) -> Seq<HexCellView> {
    match bounding_box(polygon.exterior@) {
        None => Seq::empty(),
        Some((min_x, min_y, max_x, max_y)) => extent_cells(min_x, min_y, max_x, max_y, zoom).filter(
            touching(polygon),
        ),
    }
}

/// The cells of the first `n` of `polygons`, one polygon after the other.
pub open spec fn concat_cells(polygons: Seq<Polygon>, zoom: u8, n: int) -> Seq<HexCellView>
    decreases n,
{
    if n <= 0 {
        Seq::empty()
    } else {
        concat_cells(polygons, zoom, n - 1) + polygon_cells(polygons[n - 1], zoom)
    }
}

/// Whether one of `cells` has the identifier `id`.
pub open spec fn has_id(cells: Seq<HexCellView>, id: Seq<char>) -> bool {
    exists|k: int| 0 <= k < cells.len() && (#[trigger] cells[k]).id == id
}

/// `cells` without the cells whose identifier has occurred before: of each
/// identifier the first cell stays, and the order is kept.
pub open spec fn dedup_by_id(cells: Seq<HexCellView>) -> Seq<HexCellView>
    decreases cells.len(),
{
    if cells.len() == 0 {
        Seq::empty()
    } else if has_id(dedup_by_id(cells.drop_last()), cells.last().id) {
        dedup_by_id(cells.drop_last())
    } else {
        dedup_by_id(cells.drop_last()).push(cells.last())
    }
}

/// The cells that cover several polygons: the cells of each polygon in
/// turn, a cell that an earlier polygon has already given left out.
pub open spec fn multipolygon_cells(polygons: Seq<Polygon>, zoom: u8) -> Seq<HexCellView> {
    dedup_by_id(concat_cells(polygons, zoom, polygons.len() as int))
}

/// The set of identifiers of `cells`.
pub open spec fn id_set(cells: Seq<HexCellView>) -> Set<Seq<char>> {
    Set::new(|id: Seq<char>| has_id(cells, id))
}

/// The first cell of `cells` at (`row`, `col`), if there is one.
pub open spec fn first_at(cells: Seq<HexCellView>, row: int, col: int) -> Option<int>
    decreases cells.len(),
{
    if cells.len() == 0 {
        None
    } else if first_at(cells.drop_last(), row, col) is Some {
        first_at(cells.drop_last(), row, col)
    } else if cells.last().row == row && cells.last().col == col {
        Some(cells.len() - 1)
    } else {
        None
    }
}

/// The cells of `cells` at the positions where `keep` holds, in order.
pub open spec fn kept(cells: Seq<HexCell>, keep: Seq<bool>) -> Seq<HexCell>
    recommends
        keep.len() == cells.len(),
    decreases cells.len(),
{
    if cells.len() == 0 || keep.len() != cells.len() {
        Seq::empty()
    } else if keep.last() {
        kept(cells.drop_last(), keep.drop_last()).push(cells.last())
    } else {
        kept(cells.drop_last(), keep.drop_last())
    }
}

/// Removing repeated identifiers keeps the set of identifiers, and leaves
/// no identifier twice.
pub proof fn lemma_dedup_by_id(cells: Seq<HexCellView>)
    ensures
        id_set(dedup_by_id(cells)) == id_set(cells),
        distinct_ids(dedup_by_id(cells)),
        forall|i: int|
            0 <= i < dedup_by_id(cells).len() ==> cells.contains(#[trigger] dedup_by_id(cells)[i]),
    decreases cells.len(),
{
    let out = dedup_by_id(cells);
    if cells.len() == 0 {
        assert(id_set(out) =~= id_set(cells));
    } else {
        let front = cells.drop_last();
        let rest = dedup_by_id(front);
        lemma_dedup_by_id(front);
        assert forall|i: int| 0 <= i < out.len() implies cells.contains(#[trigger] out[i]) by {
            if i < rest.len() {
                assert(front.contains(rest[i]));
                let k = choose|k: int| 0 <= k < front.len() && front[k] == rest[i];
                assert(cells[k] == rest[i]);
            } else {
                assert(cells[cells.len() - 1] == out[i]);
            }
        }
        assert forall|id: Seq<char>| has_id(out, id) == has_id(cells, id) by {
            if has_id(out, id) {
                let k = choose|k: int| 0 <= k < out.len() && (#[trigger] out[k]).id == id;
                assert(cells.contains(out[k]));
                let m = choose|m: int| 0 <= m < cells.len() && cells[m] == out[k];
                assert(cells[m].id == id);
            }
            if has_id(cells, id) {
                let m = choose|m: int| 0 <= m < cells.len() && (#[trigger] cells[m]).id == id;
                if m < front.len() {
                    assert(front[m].id == id);
                    assert(has_id(front, id));
                    assert(id_set(front).contains(id));
                    assert(id_set(rest).contains(id));
                    let k = choose|k: int| 0 <= k < rest.len() && (#[trigger] rest[k]).id == id;
                    assert(out[k].id == id);
                } else {
                    if has_id(rest, cells.last().id) {
                    } else {
                        assert(out[out.len() - 1].id == id);
                    }
                }
            }
        }
        assert(id_set(out) =~= id_set(cells));
    }
}

/// A sequence followed by itself has the identifiers of the sequence.
pub proof fn lemma_id_set_twice(cells: Seq<HexCellView>)
    ensures
        id_set(cells + cells) == id_set(cells),
{
    let both = cells + cells;
    assert forall|id: Seq<char>| has_id(both, id) == has_id(cells, id) by {
        if has_id(both, id) {
            let k = choose|k: int| 0 <= k < both.len() && (#[trigger] both[k]).id == id;
            if k < cells.len() {
                assert(cells[k].id == id);
            } else {
                assert(cells[k - cells.len()].id == id);
            }
        }
        if has_id(cells, id) {
            let k = choose|k: int| 0 <= k < cells.len() && (#[trigger] cells[k]).id == id;
            assert(both[k].id == id);
        }
    }
    assert(id_set(both) =~= id_set(cells));
}

/// Two copies of one polygon are covered by the cells, identifier for
/// identifier, that cover the polygon alone.
pub proof fn lemma_same_polygon_twice(polygon: Polygon, zoom: u8)
    ensures
        id_set(multipolygon_cells(seq![polygon, polygon], zoom)) == id_set(
            polygon_cells(polygon, zoom),
        ),
{
    let polygons = seq![polygon, polygon];
    let one = polygon_cells(polygon, zoom);
    assert(concat_cells(polygons, zoom, 0) =~= Seq::empty());
    assert(concat_cells(polygons, zoom, 1) =~= one);
    assert(concat_cells(polygons, zoom, 2) =~= one + one);
    lemma_dedup_by_id(one + one);
    lemma_id_set_twice(one);
}

/// Every cell that covers a polygon also covers the rectangle round the
/// polygon's outer ring, and the cells keep their order.
pub proof fn lemma_polygon_cells_within_extent(polygon: Polygon, zoom: u8)
    requires
        polygon.exterior@.len() > 0,
    ensures
        ({
            let (min_x, min_y, max_x, max_y) = bounding_box(polygon.exterior@)->Some_0;
            let all = extent_cells(min_x, min_y, max_x, max_y, zoom);
            &&& polygon_cells(polygon, zoom).len() <= all.len()
            &&& forall|i: int|
                0 <= i < polygon_cells(polygon, zoom).len() ==> all.contains(
                    #[trigger] polygon_cells(polygon, zoom)[i],
                )
        }),
{
    let (min_x, min_y, max_x, max_y) = bounding_box(polygon.exterior@)->Some_0;
    let all = extent_cells(min_x, min_y, max_x, max_y, zoom);
    let pred = touching(polygon);
    let some = all.filter(pred);
    all.lemma_filter_len(pred);
    assert forall|i: int| 0 <= i < some.len() implies all.contains(#[trigger] some[i]) by {
        assert(some.contains(some[i]));
        all.lemma_filter_contains_rev(pred, some[i]);
    }
}

/// A set of hexagonal cells of one zoom level.
#[derive(Debug)]
pub struct HexGrid {
    cells: Vec<HexCell>,
    zoom_level: u8,
}

impl View for HexGrid {
    type V = Seq<HexCellView>;

    /// The cells of the grid, in order.
    closed spec fn view(&self) -> Seq<HexCellView> {
        views(self.cells@)
    }
}

/// Whether `polygon` and the outline of `cell` share a point.
fn touches_cell(polygon: &Polygon, cell: &HexCell, Ghost(zoom): Ghost<u8>) -> (r: bool)
    requires
        polygon.within(GEOMETRY_LIMIT as int),
        grid_cell(cell@, zoom),
    ensures
        r == touches(*polygon, cell@),
{
    let hexagon = cell.to_polygon();
    proof {
        assert(rings_points(hexagon.interiors@) =~= Seq::empty());
        assert forall|r: int| 0 <= r < polygon.interiors@.len() implies ring_within(
            (#[trigger] polygon.interiors@[r])@,
            3 * GEOMETRY_LIMIT,
        ) by {
            assert(ring_within(polygon.interiors@[r]@, GEOMETRY_LIMIT as int));
        }
    }
    intersects(polygon, &hexagon)
}

/// The rectangle round a polygon within the geometry limit is within it.
proof fn lemma_bounding_box_within(ring: Seq<Coord>)
    requires
        ring.len() > 0,
        ring_within(ring, GEOMETRY_LIMIT as int),
    ensures
        ({
            let (min_x, min_y, max_x, max_y) = bounding_box(ring)->Some_0;
            &&& -GEOMETRY_LIMIT <= min_x <= GEOMETRY_LIMIT
            &&& -GEOMETRY_LIMIT <= min_y <= GEOMETRY_LIMIT
            &&& -GEOMETRY_LIMIT <= max_x <= GEOMETRY_LIMIT
            &&& -GEOMETRY_LIMIT <= max_y <= GEOMETRY_LIMIT
        }),
{
    let xs = eastings(ring);
    let ys = northings(ring);
    lemma_min_max(xs);
    lemma_min_max(ys);
    let i = choose|i: int| 0 <= i < xs.len() && xs[i] == min_of(xs);
    let j = choose|j: int| 0 <= j < xs.len() && xs[j] == max_of(xs);
    let k = choose|k: int| 0 <= k < ys.len() && ys[k] == min_of(ys);
    let l = choose|l: int| 0 <= l < ys.len() && ys[l] == max_of(ys);
    assert(ring[i].x == xs[i] && ring[j].x == xs[j]);
    assert(ring[k].y == ys[k] && ring[l].y == ys[l]);
}

/// Cells picked from grid cells with distinct identifiers, each from a
/// later place than the one before, are grid cells with distinct
/// identifiers.
proof fn lemma_picked_cells(all: Seq<HexCellView>, some: Seq<HexCellView>, source: Seq<int>, zoom: u8)
    requires
        grid_cells(all, zoom),
        source.len() == some.len(),
        forall|i: int|
            0 <= i < source.len() ==> 0 <= #[trigger] source[i] < all.len() && some[i]
                == all[source[i]],
        forall|i: int, j: int| 0 <= i < j < source.len() ==> source[i] < source[j],
    ensures
        grid_cells(some, zoom),
{
    assert forall|i: int| 0 <= i < some.len() implies grid_cell(#[trigger] some[i], zoom) by {
        assert(some[i] == all[source[i]]);
    }
    assert forall|i: int, j: int| 0 <= i < j < some.len() implies some[i].id != some[j].id by {
        assert(source[i] < source[j]);
        assert(some[i] == all[source[i]] && some[j] == all[source[j]]);
    }
}

/// The cells that cover `polygon`, in row-major order.
fn polygon_cell_list(polygon: &Polygon, zoom_level: u8) -> (cells: Vec<HexCell>)
    requires
        polygon.within(GEOMETRY_LIMIT as int),
    ensures
        views(cells@) == polygon_cells(*polygon, zoom_level),
        grid_cells(views(cells@), zoom_level),
{
    let mut cells: Vec<HexCell> = Vec::new();
    let (min, max) = match polygon.bounding_rect() {
        Some(rect) => (rect.min(), rect.max()),
        None => {
            assert(views(cells@) =~= Seq::empty());
            return cells;
        },
    };
    proof {
        lemma_bounding_box_within(polygon.exterior@);
    }
    let candidates = generate_cells_for_extent(min.x, min.y, max.x, max.y, zoom_level);
    let ghost all = views(candidates@);
    let ghost pred = touching(*polygon);
    let ghost mut source: Seq<int> = Seq::empty();
    let mut k: usize = 0;
    proof {
        reveal(Seq::filter);
        assert(all.take(0) =~= Seq::empty());
        assert(views(cells@) =~= all.take(0).filter(pred));
    }
    while k < candidates.len()
        invariant
            k <= candidates@.len(),
            all == views(candidates@),
            grid_cells(all, zoom_level),
            pred == touching(*polygon),
            polygon.within(GEOMETRY_LIMIT as int),
            views(cells@) == all.take(k as int).filter(pred),
            source.len() == cells@.len(),
            forall|i: int|
                0 <= i < source.len() ==> 0 <= #[trigger] source[i] < k && views(cells@)[i]
                    == all[source[i]],
            forall|i: int, j: int| 0 <= i < j < source.len() ==> source[i] < source[j],
        decreases candidates@.len() - k,
    {
        let candidate = &candidates[k];
        proof {
            reveal(Seq::filter);
            assert(all.take(k + 1).drop_last() =~= all.take(k as int));
            assert(all.take(k + 1).last() == all[k as int]);
            assert(grid_cell(all[k as int], zoom_level));
            assert(all[k as int] == candidate@);
        }
        if touches_cell(polygon, candidate, Ghost(zoom_level)) {
            let ghost before_push = views(cells@);
            cells.push(candidate.duplicate());
            proof {
                assert(views(cells@) =~= before_push.push(all[k as int]));
                source = source.push(k as int);
            }
        }
        k = k + 1;
    }
    proof {
        assert(all.take(k as int) =~= all);
        lemma_picked_cells(all, views(cells@), source, zoom_level);
    }
    cells
}

impl Clone for HexGrid {
    /// A grid with the same cells and zoom level.
    fn clone(&self) -> (grid: HexGrid)
        ensures
            grid@ == self@,
            grid.zoom() == self.zoom(),
    {
        proof {
            use_type_invariant(self);
        }
        let mut cells: Vec<HexCell> = Vec::with_capacity(self.cells.len());
        let mut k: usize = 0;
        while k < self.cells.len()
            invariant
                k <= self.cells@.len(),
                views(cells@) == views(self.cells@).take(k as int),
            decreases self.cells@.len() - k,
        {
            let ghost before_push = views(cells@);
            cells.push(self.cells[k].duplicate());
            assert(views(cells@) =~= before_push.push(views(self.cells@)[k as int]));
            assert(views(cells@) =~= views(self.cells@).take(k + 1));
            k = k + 1;
        }
        assert(views(self.cells@).take(k as int) =~= views(self.cells@));
        HexGrid { cells, zoom_level: self.zoom_level }
    }
}

impl HexGrid {
    #[verifier::type_invariant]
    spec fn inv(self) -> bool {
        grid_cells(views(self.cells@), self.zoom_level)
    }

    /// The zoom level of the grid.
    pub closed spec fn zoom(&self) -> u8 {
        self.zoom_level
    }

    /// A builder with nothing set.
    pub fn builder() -> (b: HexGridBuilder)
        ensures
            b == HexGridBuilder::empty(),
    {
        HexGridBuilder::new()
    }

    /// The grid of the cells that cover the extent from (`min_x`, `min_y`)
    /// to (`max_x`, `max_y`). An empty grid at a zoom level above 15.
    pub fn from_extent(min_x: i128, min_y: i128, max_x: i128, max_y: i128, zoom_level: u8) -> (grid:
        HexGrid)
        requires
            -GEOMETRY_LIMIT <= min_x <= GEOMETRY_LIMIT,
            -GEOMETRY_LIMIT <= min_y <= GEOMETRY_LIMIT,
            -GEOMETRY_LIMIT <= max_x <= GEOMETRY_LIMIT,
            -GEOMETRY_LIMIT <= max_y <= GEOMETRY_LIMIT,
        ensures
            grid@ == extent_cells(min_x as int, min_y as int, max_x as int, max_y as int, zoom_level),
            grid.zoom() == zoom_level,
            grid_cells(grid@, zoom_level),
    {
        let cells = generate_cells_for_extent(min_x, min_y, max_x, max_y, zoom_level);
        HexGrid { cells, zoom_level }
    }

    /// The grid of the cells that cover `rect`.
    pub fn from_rect(rect: &Rect, zoom_level: u8) -> (grid: HexGrid)
        requires
            -GEOMETRY_LIMIT <= rect.spec_min().x <= GEOMETRY_LIMIT,
            -GEOMETRY_LIMIT <= rect.spec_min().y <= GEOMETRY_LIMIT,
            -GEOMETRY_LIMIT <= rect.spec_max().x <= GEOMETRY_LIMIT,
            -GEOMETRY_LIMIT <= rect.spec_max().y <= GEOMETRY_LIMIT,
        ensures
            grid@ == extent_cells(
                rect.spec_min().x as int,
                rect.spec_min().y as int,
                rect.spec_max().x as int,
                rect.spec_max().y as int,
                zoom_level,
            ),
            grid.zoom() == zoom_level,
            grid_cells(grid@, zoom_level),
    {
        HexGrid::from_extent(rect.min().x, rect.min().y, rect.max().x, rect.max().y, zoom_level)
    }

    /// The grid of the cells that cover the extent from `min` to `max`.
    pub fn from_bng_extent(min: &Coord, max: &Coord, zoom_level: u8) -> (grid: HexGrid)
        requires
            -GEOMETRY_LIMIT <= min.x <= GEOMETRY_LIMIT,
            -GEOMETRY_LIMIT <= min.y <= GEOMETRY_LIMIT,
            -GEOMETRY_LIMIT <= max.x <= GEOMETRY_LIMIT,
            -GEOMETRY_LIMIT <= max.y <= GEOMETRY_LIMIT,
        ensures
            grid@ == extent_cells(
                min.x as int,
                min.y as int,
                max.x as int,
                max.y as int,
                zoom_level,
            ),
            grid.zoom() == zoom_level,
            grid_cells(grid@, zoom_level),
    {
        HexGrid::from_extent(min.x, min.y, max.x, max.y, zoom_level)
    }

    /// The grid of the cells that cover `polygon`: the cells over the
    /// rectangle round its outer ring whose outline shares a point with the
    /// polygon. An empty grid where the outer ring is empty, and at a zoom
    /// level above 15.
    pub fn from_bng_polygon(polygon: &Polygon, zoom_level: u8) -> (grid: HexGrid)
        requires
            polygon.within(GEOMETRY_LIMIT as int),
        ensures
            grid@ == polygon_cells(*polygon, zoom_level),
            grid.zoom() == zoom_level,
            grid_cells(grid@, zoom_level),
    {
        let cells = polygon_cell_list(polygon, zoom_level);
        HexGrid { cells, zoom_level }
    }

    /// The grid of the cells that cover the polygons of `multipolygon`: the
    /// cells of each polygon in turn, without those whose identifier an
    /// earlier cell already has. Within a grid an identifier stands for a
    /// row and column, so the cells met are kept by row and column.
    pub fn from_bng_multipolygon(multipolygon: &MultiPolygon, zoom_level: u8) -> (grid: HexGrid)
        requires
            forall|i: int|
                0 <= i < multipolygon.0@.len() ==> (#[trigger] multipolygon.0@[i]).within(
                    GEOMETRY_LIMIT as int,
                ),
        ensures
            grid@ == multipolygon_cells(multipolygon.0@, zoom_level),
            grid.zoom() == zoom_level,
            grid_cells(grid@, zoom_level),
    {
        let ghost polygons = multipolygon.0@;
        let mut all: Vec<HexCell> = Vec::new();
        let mut p: usize = 0;
        assert(views(all@) =~= concat_cells(polygons, zoom_level, 0));
        while p < multipolygon.0.len()
            invariant
                p <= polygons.len(),
                polygons == multipolygon.0@,
                forall|i: int|
                    0 <= i < polygons.len() ==> (#[trigger] polygons[i]).within(
                        GEOMETRY_LIMIT as int,
                    ),
                views(all@) == concat_cells(polygons, zoom_level, p as int),
                forall|i: int| 0 <= i < all@.len() ==> grid_cell(#[trigger] views(all@)[i], zoom_level),
            decreases polygons.len() - p,
        {
            let ghost so_far = views(all@);
            let mut part = polygon_cell_list(&multipolygon.0[p], zoom_level);
            let ghost added = views(part@);
            all.append(&mut part);
            assert(views(all@) =~= so_far + added);
            p = p + 1;
        }
        let ghost flat = views(all@);
        let mut cells: Vec<HexCell> = Vec::new();
        let mut seen: HashSet<i128> = HashSet::new();
        let mut k: usize = 0;
        assert(flat.take(0) =~= Seq::empty());
        assert(views(cells@) =~= dedup_by_id(flat.take(0)));
        while k < all.len()
            invariant
                k <= all@.len(),
                flat == views(all@),
                forall|i: int| 0 <= i < flat.len() ==> grid_cell(#[trigger] flat[i], zoom_level),
                views(cells@) == dedup_by_id(flat.take(k as int)),
                forall|i: int|
                    0 <= i < cells@.len() ==> grid_cell(#[trigger] views(cells@)[i], zoom_level),
                seen_cells(seen@, views(cells@)),
            decreases all@.len() - k,
        {
            let ghost before_push = views(cells@);
            let ghost seen_before = seen@;
            proof {
                assert(flat.take(k + 1).drop_last() =~= flat.take(k as int));
                assert(flat.take(k + 1).last() == flat[k as int]);
                assert(flat[k as int] == all@[k as int]@);
                // Among grid cells an identifier stands for a row and column.
                lemma_id_is_index(before_push, flat[k as int], zoom_level);
            }
            if mark_seen(&mut seen, all[k].row, all[k].col, Ghost(views(cells@))) {
                cells.push(all[k].duplicate());
                proof {
                    assert(views(cells@) =~= before_push.push(flat[k as int]));
                    lemma_seen_push(seen_before, before_push, flat[k as int]);
                }
            }
            k = k + 1;
        }
        proof {
            assert(flat.take(k as int) =~= flat);
            lemma_dedup_by_id(flat);
        }
        HexGrid { cells, zoom_level }
    }

    /// The zoom level of the grid.
    pub fn zoom_level(&self) -> (zoom: u8)
        ensures
            zoom == self.zoom(),
    {
        self.zoom_level
    }

    /// The number of cells in the grid.
    pub fn len(&self) -> (n: usize)
        ensures
            n == self@.len(),
    {
        self.cells.len()
    }

    /// Whether the grid has no cells.
    pub fn is_empty(&self) -> (b: bool)
        ensures
            b == (self@.len() == 0),
    {
        self.cells.len() == 0
    }

    /// The cells of the grid, in order. Each is a sound cell of the grid's
    /// zoom level with its centre on the grid's side of the origin, and no
    /// two share an identifier.
    pub fn cells(&self) -> (cells: &[HexCell])
        ensures
            cells@ == self.cell_seq(),
            views(cells@) == self@,
            grid_cells(self@, self.zoom()),
            forall|i: int|
                0 <= i < cells@.len() ==> grid_cell((#[trigger] cells@[i])@, self.zoom()),
    {
        proof {
            use_type_invariant(self);
            assert forall|i: int| 0 <= i < self.cells@.len() implies grid_cell(
                (#[trigger] self.cells@[i])@,
                self.zoom_level,
            ) by {
                assert(views(self.cells@)[i] == self.cells@[i]@);
            }
        }
        self.cells.as_slice()
    }

    /// An iterator over the cells of the grid, in order.
    pub fn iter(&self) -> (cells: core::slice::Iter<'_, HexCell>)
        ensures
            views(vstd::std_specs::slice::into_iter_elts(cells)) == self@,
    {
        self.cells.as_slice().iter()
    }

    /// The first cell of the grid in the row and column that hold `point`
    /// at the grid's zoom level, if the grid has one.
    pub fn get_cell_at(&self, point: &Coord) -> (found: Option<&HexCell>)
        requires
            point.in_range(),
        ensures
            self.zoom() > MAX_ZOOM_LEVEL ==> found is None,
            self.zoom() <= MAX_ZOOM_LEVEL ==> ({
                let (row, col) = cell_index(point.x as int, point.y as int, self.zoom() as int);
                match first_at(self@, row, col) {
                    None => found is None,
                    Some(i) => found matches Some(cell) && cell@ == self@[i],
                }
            }),
    {
        let (row, col) = match point_to_hex(point, self.zoom_level) {
            Ok(index) => index,
            Err(_) => { return None; },
        };
        let ghost all = views(self.cells@);
        let mut k: usize = 0;
        assert(all.take(0) =~= Seq::empty());
        while k < self.cells.len()
            invariant
                k <= self.cells@.len(),
                all == views(self.cells@),
                self.zoom_level <= MAX_ZOOM_LEVEL,
                (row as int, col as int) == cell_index(
                    point.x as int,
                    point.y as int,
                    self.zoom_level as int,
                ),
                first_at(all.take(k as int), row as int, col as int) is None,
            decreases self.cells@.len() - k,
        {
            proof {
                assert(all.take(k + 1).drop_last() =~= all.take(k as int));
                assert(all.take(k + 1).last() == all[k as int]);
            }
            if self.cells[k].row == row && self.cells[k].col == col {
                proof {
                    lemma_first_at_prefix(all, k + 1, row as int, col as int);
                }
                return Some(&self.cells[k]);
            }
            k = k + 1;
        }
        assert(all.take(k as int) =~= all);
        None
    }

    /// The outline of every cell of the grid, in order.
    pub fn to_polygons(&self) -> (polygons: Vec<Polygon>)
        ensures
            polygons@.len() == self@.len(),
            forall|i: int|
                0 <= i < polygons@.len() ==> ring_points((#[trigger] polygons@[i]).exterior@)
                    == hexagon_ring(self@[i].x, self@[i].y, cell_radius(self.zoom() as int))
                    && polygons@[i].interiors@.len() == 0,
    {
        proof {
            use_type_invariant(self);
        }
        let mut polygons: Vec<Polygon> = Vec::with_capacity(self.cells.len());
        let mut k: usize = 0;
        while k < self.cells.len()
            invariant
                k <= self.cells@.len(),
                polygons@.len() == k,
                grid_cells(views(self.cells@), self.zoom_level),
                forall|i: int|
                    0 <= i < k ==> ring_points((#[trigger] polygons@[i]).exterior@) == hexagon_ring(
                        views(self.cells@)[i].x,
                        views(self.cells@)[i].y,
                        cell_radius(self.zoom_level as int),
                    ) && polygons@[i].interiors@.len() == 0,
            decreases self.cells@.len() - k,
        {
            assert(grid_cell(views(self.cells@)[k as int], self.zoom_level));
            polygons.push(self.cells[k].to_polygon());
            k = k + 1;
        }
        polygons
    }

    /// The cells for which `predicate` returns true, in the grid's order.
    pub fn filter<F>(&self, predicate: F) -> (chosen: Vec<&HexCell>) where F: Fn(&HexCell) -> bool
        requires
            forall|c: &HexCell| call_requires(predicate, (c,)),
        ensures
            exists|keep: Seq<bool>|
                {
                    &&& keep.len() == self@.len()
                    &&& forall|i: int|
                        0 <= i < keep.len() ==> call_ensures(
                            predicate,
                            (&self.cell_seq()[i],),
                            #[trigger] keep[i],
                        )
                    &&& deref_all(chosen@) == kept(self.cell_seq(), keep)
                },
    {
        let mut chosen: Vec<&HexCell> = Vec::new();
        let ghost mut keep: Seq<bool> = Seq::empty();
        let mut k: usize = 0;
        assert(self.cells@.take(0) =~= Seq::empty());
        assert(deref_all(chosen@) =~= kept(self.cells@.take(0), keep));
        while k < self.cells.len()
            invariant
                k <= self.cells@.len(),
                keep.len() == k,
                forall|c: &HexCell| call_requires(predicate, (c,)),
                forall|i: int|
                    0 <= i < k ==> call_ensures(predicate, (&self.cells@[i],), #[trigger] keep[i]),
                deref_all(chosen@) == kept(self.cells@.take(k as int), keep),
            decreases self.cells@.len() - k,
        {
            let cell = &self.cells[k];
            let wanted = predicate(cell);
            let ghost before_push = deref_all(chosen@);
            proof {
                assert(self.cells@.take(k + 1).drop_last() =~= self.cells@.take(k as int));
                assert(self.cells@.take(k + 1).last() == self.cells@[k as int]);
                assert(keep.push(wanted).drop_last() =~= keep);
                keep = keep.push(wanted);
            }
            if wanted {
                chosen.push(cell);
                assert(deref_all(chosen@) =~= before_push.push(*cell));
            }
            k = k + 1;
        }
        assert(self.cells@.take(k as int) =~= self.cells@);
        assert({
            &&& keep.len() == self@.len()
            &&& forall|i: int|
                0 <= i < keep.len() ==> call_ensures(
                    predicate,
                    (&self.cell_seq()[i],),
                    #[trigger] keep[i],
                )
            &&& deref_all(chosen@) == kept(self.cell_seq(), keep)
        });
        chosen
    }

    /// The cells of the grid as they are stored.
    pub closed spec fn cell_seq(&self) -> Seq<HexCell> {
        self.cells@
    }

    /// The view of the grid is the views of its stored cells.
    pub proof fn lemma_cell_seq(&self)
        ensures
            views(self.cell_seq()) == self@,
    {
    }
}

/// The cells that a sequence of references points to.
pub open spec fn deref_all(cells: Seq<&HexCell>) -> Seq<HexCell> {
    Seq::new(cells.len(), |i: int| *cells[i])
}

/// Where the first `n` cells hold a cell at (`row`, `col`) last of all and
/// none before it, that cell is the first of the whole sequence there.
proof fn lemma_first_at_prefix(cells: Seq<HexCellView>, n: int, row: int, col: int)
    requires
        0 < n <= cells.len(),
        first_at(cells.take(n - 1), row, col) is None,
        cells[n - 1].row == row,
        cells[n - 1].col == col,
    ensures
        first_at(cells, row, col) == Some(n - 1),
    decreases cells.len() - n,
{
    assert(cells.take(n).drop_last() =~= cells.take(n - 1));
    assert(first_at(cells.take(n), row, col) == Some(n - 1));
    lemma_first_at_extends(cells, n, row, col);
}

/// What is first in a prefix is first in the whole sequence.
proof fn lemma_first_at_extends(cells: Seq<HexCellView>, n: int, row: int, col: int)
    requires
        0 <= n <= cells.len(),
        first_at(cells.take(n), row, col) is Some,
    ensures
        first_at(cells, row, col) == first_at(cells.take(n), row, col),
    decreases cells.len() - n,
{
    if n == cells.len() {
        assert(cells.take(n) =~= cells);
    } else {
        assert(cells.take(n + 1).drop_last() =~= cells.take(n));
        lemma_first_at_extends(cells, n + 1, row, col);
    }
}

} // verus!
