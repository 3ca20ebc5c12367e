use crate::cell::{cell_at, HexCell, HexCellView};
use crate::constants::{
    cell_width, lemma_table_bounds, row_pitch_den, row_pitch_num, valid_zoom, GEOMETRY_LIMIT,
    GRID_EXTENTS, MAX_ZOOM_LEVEL,
};
use crate::coord::Coord;
use crate::grid::{
    cell_index, center_x, center_y, col_of, hex_to_point, lemma_center_injective,
    lemma_center_near_point, lemma_col_bound, lemma_row_bound, parity, point_to_hex, row_of,
    INDEX_LIMIT,
};
use crate::identifier::scaled;
use crate::rounding::{lemma_round_div_monotonic, lemma_round_div_nearest};
use std::collections::HashSet;
use vstd::prelude::*;

verus! {

broadcast use vstd::std_specs::hash::group_hash_axioms;

/// The mathematical values of a sequence of cells.
pub open spec fn views(cells: Seq<HexCell>) -> Seq<HexCellView> {
    Seq::new(cells.len(), |i: int| cells[i]@)
}

/// Whether the centre of the cell at (`row`, `col`) lies on the grid's side
/// of the origin on both axes.
pub open spec fn on_grid_side(row: int, col: int, zoom: u8) -> bool {
    center_x(row, col, zoom as int) >= GRID_EXTENTS[0] && center_y(row, zoom as int)
        >= GRID_EXTENTS[1]
}

/// The cells of `row` in columns `col_lo` to `col_hi`, in column order,
/// leaving out those whose centre is not on the grid's side of the origin.
pub open spec fn row_cells(row: int, col_lo: int, col_hi: int, zoom: u8) -> Seq<HexCellView>
    decreases col_hi - col_lo + 1,
{
    if col_hi < col_lo {
        Seq::empty()
    } else if on_grid_side(row, col_hi, zoom) {
        row_cells(row, col_lo, col_hi - 1, zoom).push(cell_at(row, col_hi, zoom))
    } else {
        row_cells(row, col_lo, col_hi - 1, zoom)
    }
}

/// The cells of rows `row_lo` to `row_hi` in columns `col_lo` to `col_hi`,
/// row by row, leaving out those whose centre is not on the grid's side of
/// the origin.
pub open spec fn block_cells(
    row_lo: int,
    row_hi: int,
    col_lo: int,
    col_hi: int,
    zoom: u8,
) -> Seq<HexCellView>
    decreases row_hi - row_lo + 1,
{
    if row_hi < row_lo {
        Seq::empty()
    } else {
        block_cells(row_lo, row_hi - 1, col_lo, col_hi, zoom) + row_cells(
            row_hi,
            col_lo,
            col_hi,
            zoom,
        )
    }
}

/// The least of four numbers.
pub open spec fn min4(a: int, b: int, c: int, d: int) -> int {
    let ab = if a <= b { a } else { b };
    let cd = if c <= d { c } else { d };
    if ab <= cd { ab } else { cd }
}

/// The greatest of four numbers.
pub open spec fn max4(a: int, b: int, c: int, d: int) -> int {
    let ab = if a >= b { a } else { b };
    let cd = if c >= d { c } else { d };
    if ab >= cd { ab } else { cd }
}

/// The cells that cover an extent: the four corners are indexed, and
/// every cell between the least and greatest row and the least and
/// greatest column among them is taken, row by row, unless its centre lies
/// below the origin on either axis. No cells at a zoom level above 15.
pub open spec fn extent_cells(min_x: int, min_y: int, max_x: int, max_y: int, zoom: u8) -> Seq<
    HexCellView,
> {
    if zoom > MAX_ZOOM_LEVEL {
        Seq::empty()
    } else {
        let z = zoom as int;
        let (ll_row, ll_col) = cell_index(min_x, min_y, z);
        let (lr_row, lr_col) = cell_index(max_x, min_y, z);
        let (ur_row, ur_col) = cell_index(max_x, max_y, z);
        let (ul_row, ul_col) = cell_index(min_x, max_y, z);
        block_cells(
            min4(ll_row, lr_row, ur_row, ul_row),
            max4(ll_row, lr_row, ur_row, ul_row),
            min4(ll_col, lr_col, ur_col, ul_col),
            max4(ll_col, lr_col, ur_col, ul_col),
            zoom,
        )
    }
}

/// Whether `a` comes before `b` in row-major order.
pub open spec fn before(a: HexCellView, b: HexCellView) -> bool {
    a.row < b.row || (a.row == b.row && a.col < b.col)
}

/// What holds of each cell of a grid at `zoom`: the cell is sound, it is
/// the cell of its row and column at the grid's zoom level, and its centre
/// lies on the grid's side of the origin, within twice the geometry limit.
pub open spec fn grid_cell(c: HexCellView, zoom: u8) -> bool {
    &&& c.wf()
    &&& c == cell_at(c.row, c.col, zoom)
    &&& 0 <= c.x <= 2 * GEOMETRY_LIMIT
    &&& 0 <= c.y <= 2 * GEOMETRY_LIMIT
}

/// Whether no two cells of `cells` have the same identifier.
pub open spec fn distinct_ids(cells: Seq<HexCellView>) -> bool {
    forall|i: int, j: int| 0 <= i < j < cells.len() ==> cells[i].id != cells[j].id
}

/// What holds of the cells of every grid: each is a [`grid_cell`] of the
/// grid's zoom level, and no identifier occurs twice.
pub open spec fn grid_cells(cells: Seq<HexCellView>, zoom: u8) -> bool {
    &&& forall|i: int| 0 <= i < cells.len() ==> grid_cell(#[trigger] cells[i], zoom)
    &&& distinct_ids(cells)
}

/// Whether one of `cells` is at (`row`, `col`).
pub open spec fn has_index(cells: Seq<HexCellView>, row: int, col: int) -> bool {
    exists|k: int| 0 <= k < cells.len() && (#[trigger] cells[k]).row == row && cells[k].col == col
}

/// One number for a row and a column of 64 bits each: the row in the upper
/// half, the column, counted from the least column, in the lower half.
pub open spec fn index_key(row: int, col: int) -> int {
    row * 0x1_0000_0000_0000_0000 + (col + 0x8000_0000_0000_0000)
}

/// Whether `v` is in the range of a signed number of 64 bits.
pub open spec fn fits_i64(v: int) -> bool {
    -0x8000_0000_0000_0000 <= v < 0x8000_0000_0000_0000
}

/// Whether `seen` holds the keys of exactly the rows and columns at which
/// `cells` has a cell.
pub open spec fn seen_cells(seen: Set<i128>, cells: Seq<HexCellView>) -> bool {
    forall|row: int, col: int|
        fits_i64(row) && fits_i64(col) ==> (seen.contains(index_key(row, col) as i128)
            <==> #[trigger] has_index(cells, row, col))
}

/// The key of a row and a column of 64 bits each fits 128 bits.
pub proof fn lemma_index_key_range(row: int, col: int)
    requires
        fits_i64(row),
        fits_i64(col),
    ensures
        i128::MIN <= index_key(row, col) <= i128::MAX,
{
    let shifted = row * 0x1_0000_0000_0000_0000;
    assert(-170141183460469231731687303715884105728 <= shifted
        <= 170141183460469231713240559642174554112) by (nonlinear_arith)
        requires
            shifted == row * 0x1_0000_0000_0000_0000,
            -0x8000_0000_0000_0000 <= row <= 0x7fff_ffff_ffff_ffff,
    ;
    assert(index_key(row, col) == shifted + (col + 0x8000_0000_0000_0000));
}

/// Different rows and columns have different keys.
pub proof fn lemma_index_key_injective(row1: int, col1: int, row2: int, col2: int)
    requires
        fits_i64(row1),
        fits_i64(col1),
        fits_i64(row2),
        fits_i64(col2),
        index_key(row1, col1) == index_key(row2, col2),
    ensures
        row1 == row2,
        col1 == col2,
{
    if row1 < row2 {
        assert(row2 * 0x1_0000_0000_0000_0000 - row1 * 0x1_0000_0000_0000_0000
            >= 0x1_0000_0000_0000_0000) by (nonlinear_arith)
            requires
                row1 + 1 <= row2,
        ;
    } else if row2 < row1 {
        assert(row1 * 0x1_0000_0000_0000_0000 - row2 * 0x1_0000_0000_0000_0000
            >= 0x1_0000_0000_0000_0000) by (nonlinear_arith)
            requires
                row2 + 1 <= row1,
        ;
    }
}

/// A set that holds the keys of some cells holds, with one key more, the
/// keys of those cells and one more cell.
pub proof fn lemma_seen_push(seen: Set<i128>, cells: Seq<HexCellView>, c: HexCellView)
    requires
        seen_cells(seen, cells),
        fits_i64(c.row),
        fits_i64(c.col),
    ensures
        seen_cells(seen.insert(index_key(c.row, c.col) as i128), cells.push(c)),
{
    let more = cells.push(c);
    let key = index_key(c.row, c.col) as i128;
    lemma_index_key_range(c.row, c.col);
    assert forall|row: int, col: int| fits_i64(row) && fits_i64(col) implies (seen.insert(
        key,
    ).contains(index_key(row, col) as i128) <==> #[trigger] has_index(more, row, col)) by {
        lemma_index_key_range(row, col);
        if has_index(cells, row, col) {
            let k = choose|k: int|
                0 <= k < cells.len() && (#[trigger] cells[k]).row == row && cells[k].col == col;
            assert(more[k] == cells[k]);
        }
        if row == c.row && col == c.col {
            assert(more[cells.len() as int] == c);
        } else {
            if index_key(row, col) == index_key(c.row, c.col) {
                lemma_index_key_injective(row, col, c.row, c.col);
            }
            if has_index(more, row, col) {
                let k = choose|k: int|
                    0 <= k < more.len() && (#[trigger] more[k]).row == row && more[k].col == col;
                assert(k < cells.len());
                assert(cells[k] == more[k]);
            }
        }
    }
}

/// The key of a row and a column.
pub fn key_of(row: i64, col: i64) -> (key: i128)
    ensures
        key == index_key(row as int, col as int),
{
    proof {
        lemma_index_key_range(row as int, col as int);
    }
    (row as i128) * 0x1_0000_0000_0000_0000 + ((col as i128) + 0x8000_0000_0000_0000)
}

/// Puts the key of (`row`, `col`) into `seen` and says whether it was new:
/// whether none of `cells`, whose keys `seen` holds, is at that row and
/// column.
pub(crate) fn mark_seen(
    seen: &mut HashSet<i128>,
    row: i64,
    col: i64,
    Ghost(cells): Ghost<Seq<HexCellView>>,
) -> (fresh: bool)
    requires
        seen_cells(old(seen)@, cells),
    ensures
        fresh == !has_index(cells, row as int, col as int),
        final(seen)@ == old(seen)@.insert(index_key(row as int, col as int) as i128),
        !fresh ==> final(seen)@ == old(seen)@,
{
    let key = key_of(row, col);
    assert(fits_i64(row as int) && fits_i64(col as int));
    let fresh = seen.insert(key);
    proof {
        if !fresh {
            assert(seen@ =~= old(seen)@);
        }
    }
    fresh
}

/// Among grid cells of one zoom level, a cell with the identifier of a
/// grid cell is there exactly where one in its row and column is.
pub proof fn lemma_id_is_index(cells: Seq<HexCellView>, c: HexCellView, zoom: u8)
    requires
        forall|i: int| 0 <= i < cells.len() ==> grid_cell(#[trigger] cells[i], zoom),
        grid_cell(c, zoom),
    ensures
        (exists|k: int| 0 <= k < cells.len() && (#[trigger] cells[k]).id == c.id) <==> has_index(
            cells,
            c.row,
            c.col,
        ),
{
    if exists|k: int| 0 <= k < cells.len() && (#[trigger] cells[k]).id == c.id {
        let k = choose|k: int| 0 <= k < cells.len() && (#[trigger] cells[k]).id == c.id;
        lemma_same_id_same_index(cells[k], c, zoom);
    }
    if has_index(cells, c.row, c.col) {
        let k = choose|k: int|
            0 <= k < cells.len() && (#[trigger] cells[k]).row == c.row && cells[k].col == c.col;
        assert(cells[k] == c);
    }
}

/// Two grid cells of one zoom level with the same identifier are in the
/// same row and column.
pub proof fn lemma_same_id_same_index(a: HexCellView, b: HexCellView, zoom: u8)
    requires
        grid_cell(a, zoom),
        grid_cell(b, zoom),
        a.id == b.id,
    ensures
        a.row == b.row,
        a.col == b.col,
{
    assert(scaled(a.x) == a.x && scaled(a.y) == a.y);
    assert(scaled(b.x) == b.x && scaled(b.y) == b.y);
    lemma_center_injective(a.row, a.col, b.row, b.col, zoom as int);
}

/// Cells in strict row-major order, each a grid cell, have distinct
/// identifiers.
pub proof fn lemma_ordered_cells_distinct(cells: Seq<HexCellView>, zoom: u8)
    requires
        forall|i: int| 0 <= i < cells.len() ==> grid_cell(#[trigger] cells[i], zoom),
        forall|i: int, j: int| 0 <= i < j < cells.len() ==> before(cells[i], cells[j]),
    ensures
        grid_cells(cells, zoom),
{
    assert forall|i: int, j: int| 0 <= i < j < cells.len() implies cells[i].id
        != cells[j].id by {
        if cells[i].id == cells[j].id {
            lemma_same_id_same_index(cells[i], cells[j], zoom);
            assert(before(cells[i], cells[j]));
        }
    }
}

/// The centre of a row is no farther north than that of a later row.
pub proof fn lemma_center_y_monotonic(row1: int, row2: int, zoom: int)
    requires
        valid_zoom(zoom),
        row1 <= row2,
    ensures
        center_y(row1, zoom) <= center_y(row2, zoom),
{
    lemma_table_bounds(zoom);
    let num = row_pitch_num(zoom);
    assert(row1 * num <= row2 * num) by (nonlinear_arith)
        requires
            row1 <= row2,
            num > 0,
    ;
    lemma_round_div_monotonic(row1 * num, row2 * num, row_pitch_den(zoom));
}

/// The centre of the row that holds a northing within the geometry limit
/// is less than a thousand kilometres north of it.
pub proof fn lemma_row_center_upper(y: int, zoom: int)
    requires
        valid_zoom(zoom),
    ensures
        center_y(row_of(y, zoom), zoom) <= y + 1000000000,
{
    lemma_table_bounds(zoom);
    lemma_center_near_point(0, y, zoom);
    let den = row_pitch_den(zoom);
    let num = row_pitch_num(zoom);
    let d = center_y(row_of(y, zoom), zoom) - y;
    assert(d <= 1000000000) by (nonlinear_arith)
        requires
            2 * den * d <= num + den,
            num < 1921874916 * den,
            den > 0,
    ;
}

/// The centre of any cell in the column that holds an easting, or in a
/// column before it, is less than two cell widths east of that easting.
pub proof fn lemma_col_center_upper(x: int, at_row: int, row: int, col: int, zoom: int)
    requires
        valid_zoom(zoom),
        col <= col_of(x, at_row, zoom),
    ensures
        center_x(row, col, zoom) <= x + 5000000000,
{
    lemma_table_bounds(zoom);
    let w = cell_width(zoom);
    let top = col_of(x, at_row, zoom);
    lemma_round_div_nearest(x - parity(at_row) * w, w);
    assert(0 <= parity(at_row) * w <= w) by (nonlinear_arith)
        requires
            0 <= parity(at_row) <= 1,
            w > 0,
    ;
    assert(col * w <= top * w) by (nonlinear_arith)
        requires
            col <= top,
            w > 0,
    ;
    assert(0 <= 2 * (parity(row) * (w / 2)) <= w) by (nonlinear_arith)
        requires
            0 <= parity(row) <= 1,
            w > 0,
            w % 2 == 0,
    ;
}

/// The least of four numbers.
fn least_of_four(a: i64, b: i64, c: i64, d: i64) -> (m: i64)
    ensures
        m == min4(a as int, b as int, c as int, d as int),
{
    let ab = if a <= b { a } else { b };
    let cd = if c <= d { c } else { d };
    if ab <= cd { ab } else { cd }
}

/// The greatest of four numbers.
fn greatest_of_four(a: i64, b: i64, c: i64, d: i64) -> (m: i64)
    ensures
        m == max4(a as int, b as int, c as int, d as int),
{
    let ab = if a >= b { a } else { b };
    let cd = if c >= d { c } else { d };
    if ab >= cd { ab } else { cd }
}

/// The cells that cover the extent from (`min_x`, `min_y`) to (`max_x`,
/// `max_y`) at `zoom_level`, in row-major order. No cells at a zoom level
/// above 15.
pub fn generate_cells_for_extent(
    min_x: i128,
    min_y: i128,
    max_x: i128,
    max_y: i128,
    zoom_level: u8,
) -> (cells: Vec<HexCell>)
    requires
        -GEOMETRY_LIMIT <= min_x <= GEOMETRY_LIMIT,
        -GEOMETRY_LIMIT <= min_y <= GEOMETRY_LIMIT,
        -GEOMETRY_LIMIT <= max_x <= GEOMETRY_LIMIT,
        -GEOMETRY_LIMIT <= max_y <= GEOMETRY_LIMIT,
    ensures
        views(cells@) == extent_cells(
            min_x as int,
            min_y as int,
            max_x as int,
            max_y as int,
            zoom_level,
        ),
        grid_cells(views(cells@), zoom_level),
{
    let mut cells: Vec<HexCell> = Vec::new();
    if zoom_level > MAX_ZOOM_LEVEL {
        assert(views(cells@) =~= Seq::empty());
        return cells;
    }
    let ghost z = zoom_level as int;
    let (ll_row, ll_col) = match point_to_hex(&Coord { x: min_x, y: min_y }, zoom_level) {
        Ok(v) => v,
        Err(_) => { return cells; },
    };
    let (lr_row, lr_col) = match point_to_hex(&Coord { x: max_x, y: min_y }, zoom_level) {
        Ok(v) => v,
        Err(_) => { return cells; },
    };
    let (ur_row, ur_col) = match point_to_hex(&Coord { x: max_x, y: max_y }, zoom_level) {
        Ok(v) => v,
        Err(_) => { return cells; },
    };
    let (ul_row, ul_col) = match point_to_hex(&Coord { x: min_x, y: max_y }, zoom_level) {
        Ok(v) => v,
        Err(_) => { return cells; },
    };
    let min_row = least_of_four(ll_row, lr_row, ur_row, ul_row);
    let max_row = greatest_of_four(ll_row, lr_row, ur_row, ul_row);
    let min_col = least_of_four(ll_col, lr_col, ur_col, ul_col);
    let max_col = greatest_of_four(ll_col, lr_col, ur_col, ul_col);
    let ghost top_y: int = if max_row == row_of(min_y as int, z) {
        min_y as int
    } else {
        max_y as int
    };
    let ghost (top_x, top_at): (int, int) = if max_col == ll_col {
        (min_x as int, row_of(min_y as int, z))
    } else if max_col == lr_col {
        (max_x as int, row_of(min_y as int, z))
    } else if max_col == ur_col {
        (max_x as int, row_of(max_y as int, z))
    } else {
        (min_x as int, row_of(max_y as int, z))
    };
    proof {
        lemma_row_bound(min_y as int, z);
        lemma_row_bound(max_y as int, z);
        lemma_col_bound(min_x as int, row_of(min_y as int, z), z);
        lemma_col_bound(max_x as int, row_of(min_y as int, z), z);
        lemma_col_bound(min_x as int, row_of(max_y as int, z), z);
        lemma_col_bound(max_x as int, row_of(max_y as int, z), z);
        lemma_row_center_upper(top_y, z);
        assert(max_row == row_of(top_y, z));
        assert(max_col == col_of(top_x, top_at, z));
        assert(views(cells@) =~= block_cells(
            min_row as int,
            min_row - 1,
            min_col as int,
            max_col as int,
            zoom_level,
        ));
    }
    let mut row = min_row;
    while row <= max_row
        invariant
            zoom_level <= MAX_ZOOM_LEVEL,
            z == zoom_level as int,
            -INDEX_LIMIT <= min_row <= row <= max_row + 1,
            max_row <= INDEX_LIMIT,
            -INDEX_LIMIT <= min_col <= INDEX_LIMIT,
            -INDEX_LIMIT <= max_col <= INDEX_LIMIT,
            max_row == row_of(top_y, z),
            max_col == col_of(top_x, top_at, z),
            -GEOMETRY_LIMIT <= top_y <= GEOMETRY_LIMIT,
            -GEOMETRY_LIMIT <= top_x <= GEOMETRY_LIMIT,
            center_y(max_row as int, z) <= top_y + 1000000000,
            views(cells@) == block_cells(
                min_row as int,
                row - 1,
                min_col as int,
                max_col as int,
                zoom_level,
            ),
            forall|i: int| 0 <= i < cells@.len() ==> grid_cell(#[trigger] views(cells@)[i], zoom_level),
            forall|i: int| 0 <= i < cells@.len() ==> (#[trigger] views(cells@)[i]).row < row,
            forall|i: int, j: int|
                0 <= i < j < cells@.len() ==> before(views(cells@)[i], views(cells@)[j]),
        decreases max_row - row + 1,
    {
        let ghost done = views(cells@);
        let mut col = min_col;
        if min_col <= max_col {
            while col <= max_col
                invariant
                    zoom_level <= MAX_ZOOM_LEVEL,
                    z == zoom_level as int,
                    min_row <= row <= max_row,
                    -INDEX_LIMIT <= min_col <= col <= max_col + 1,
                    max_col <= INDEX_LIMIT,
                    max_row == row_of(top_y, z),
                    max_col == col_of(top_x, top_at, z),
                    -GEOMETRY_LIMIT <= top_y <= GEOMETRY_LIMIT,
                    -GEOMETRY_LIMIT <= top_x <= GEOMETRY_LIMIT,
                    center_y(max_row as int, z) <= top_y + 1000000000,
                    views(cells@) == done + row_cells(
                        row as int,
                        min_col as int,
                        col - 1,
                        zoom_level,
                    ),
                    forall|i: int|
                        0 <= i < cells@.len() ==> grid_cell(
                            #[trigger] views(cells@)[i],
                            zoom_level,
                        ),
                    forall|i: int|
                        0 <= i < cells@.len() ==> before(
                            #[trigger] views(cells@)[i],
                            HexCellView {
                                id: Seq::empty(),
                                x: 0,
                                y: 0,
                                zoom_level: zoom_level,
                                row: row as int,
                                col: col as int,
                            },
                        ),
                    forall|i: int, j: int|
                        0 <= i < j < cells@.len() ==> before(views(cells@)[i], views(cells@)[j]),
                decreases max_col - col + 1,
            {
                let center = match hex_to_point(row, col, zoom_level) {
                    Ok(c) => c,
                    Err(_) => Coord { x: 0, y: 0 },
                };
                let ghost before_push = views(cells@);
                if center.x >= GRID_EXTENTS[0] && center.y >= GRID_EXTENTS[1] {
                    proof {
                        lemma_center_y_monotonic(row as int, max_row as int, z);
                        lemma_col_center_upper(top_x, top_at, row as int, col as int, z);
                    }
                    let cell = HexCell::placed(center, row, col, zoom_level);
                    cells.push(cell);
                    assert(views(cells@) =~= before_push.push(cell@));
                    assert(views(cells@) =~= done + row_cells(
                        row as int,
                        min_col as int,
                        col as int,
                        zoom_level,
                    ));
                }
                col = col + 1;
            }
        } else {
            assert(views(cells@) =~= done + row_cells(
                row as int,
                min_col as int,
                max_col as int,
                zoom_level,
            ));
        }
        row = row + 1;
    }
    proof {
        lemma_ordered_cells_distinct(views(cells@), zoom_level);
    }
    cells
}

} // verus!
