use crate::constants::{
    cell_width, cell_width_mm, lemma_table_bounds, row_pitch, row_pitch_den, row_pitch_num,
    valid_zoom, MAX_ZOOM_LEVEL,
};
use crate::coord::Coord;
use crate::error::N3gbError;
use crate::rounding::{
    div_round, is_nearest, lemma_round_div_bound, lemma_round_div_multiple,
    lemma_round_div_nearest, lemma_round_div_unique, round_div,
};
use vstd::prelude::*;

verus! {

/// `row` modulo two: 0 for an even row, 1 for an odd row, above zero or
/// below.
pub open spec fn parity(row: int) -> int {
    if row % 2 == 0 {
        0
    } else {
        1
    }
}

/// Row of the cell that holds northing `y`: `y` over the row pitch, rounded.
/// Northings and eastings count from the grid origin, which is (0, 0).
pub open spec fn row_of(y: int, zoom: int) -> int {
    round_div(y * row_pitch_den(zoom), row_pitch_num(zoom))
}

/// Column, within `row`, of the cell that holds easting `x`: `x` over the
/// cell width less the row's parity, rounded.
pub open spec fn col_of(x: int, row: int, zoom: int) -> int {
    round_div(x - parity(row) * cell_width(zoom), cell_width(zoom))
}

/// Row and column of the cell that holds the point (`x`, `y`).
pub open spec fn cell_index(x: int, y: int, zoom: int) -> (int, int) {
    (row_of(y, zoom), col_of(x, row_of(y, zoom), zoom))
}

/// Easting of the centre of a cell: whole widths, and half a width more on
/// an odd row.
pub open spec fn center_x(row: int, col: int, zoom: int) -> int {
    col * cell_width(zoom) + parity(row) * (cell_width(zoom) / 2)
}

/// Northing of the centre of a row: whole row pitches, rounded to the
/// millimetre.
pub open spec fn center_y(row: int, zoom: int) -> int {
    round_div(row * row_pitch_num(zoom), row_pitch_den(zoom))
}

/// Whether indexing the centre of cell (`row`, `col`) gives (`row`, `col`)
/// again. It does on even rows; on odd rows the centre sits exactly half a
/// width from two columns, and the tie goes away from zero: to the cell's
/// own column from column 1 on, to the column before it otherwise.
pub open spec fn recentres(row: int, col: int) -> bool {
    parity(row) == 0 || col >= 1
}

/// Largest magnitude of a row or column index of a point in range.
pub const INDEX_LIMIT: i64 = 1200000000000000000;

/// A point in range has a row within [`INDEX_LIMIT`].
pub proof fn lemma_row_bound(y: int, zoom: int)
    requires
        valid_zoom(zoom),
        -crate::constants::COORD_LIMIT <= y <= crate::constants::COORD_LIMIT,
    ensures
        -INDEX_LIMIT <= row_of(y, zoom) <= INDEX_LIMIT,
        -20000000000000000000000000000000000 <= y * row_pitch_den(zoom)
            <= 20000000000000000000000000000000000,
{
    lemma_table_bounds(zoom);
    let den = row_pitch_den(zoom);
    let num = row_pitch_num(zoom);
    let limit = crate::constants::COORD_LIMIT as int;
    assert(-(limit * den) <= y * den <= limit * den) by (nonlinear_arith)
        requires
            -limit <= y <= limit,
            den > 0,
    ;
    assert(limit * den <= 20000000000000000000000000000000000) by (nonlinear_arith)
        requires
            limit == 1000000000000000000000,
            0 < den <= 20000000000000,
    ;
    assert(INDEX_LIMIT * num >= limit * den) by (nonlinear_arith)
        requires
            limit == 1000000000000000000000,
            INDEX_LIMIT == 1200000000000000000,
            866 * den < num,
            den > 0,
    ;
    lemma_round_div_bound(y * den, num, INDEX_LIMIT as int);
}

/// A point in range has a column within [`INDEX_LIMIT`], whatever the row.
pub proof fn lemma_col_bound(x: int, row: int, zoom: int)
    requires
        valid_zoom(zoom),
        -crate::constants::COORD_LIMIT <= x <= crate::constants::COORD_LIMIT,
    ensures
        -INDEX_LIMIT <= col_of(x, row, zoom) <= INDEX_LIMIT,
{
    lemma_table_bounds(zoom);
    let w = cell_width(zoom);
    let n = x - parity(row) * w;
    assert(INDEX_LIMIT * w >= 1000000000000000000000 + w) by (nonlinear_arith)
        requires
            INDEX_LIMIT == 1200000000000000000,
            w >= 1000,
    ;
    assert(0 <= parity(row) * w <= w) by (nonlinear_arith)
        requires
            0 <= parity(row) <= 1,
            w > 0,
    ;
    lemma_round_div_bound(n, w, INDEX_LIMIT as int);
}

/// The centre of a cell whose row and column fit 64 bits lies within
/// [`CENTER_LIMIT`].
pub proof fn lemma_center_bound(row: int, col: int, zoom: int)
    requires
        valid_zoom(zoom),
        -0x8000_0000_0000_0000 <= row < 0x8000_0000_0000_0000,
        -0x8000_0000_0000_0000 <= col < 0x8000_0000_0000_0000,
    ensures
        -crate::constants::CENTER_LIMIT <= center_x(row, col, zoom)
            <= crate::constants::CENTER_LIMIT,
        -crate::constants::CENTER_LIMIT <= center_y(row, zoom) <= crate::constants::CENTER_LIMIT,
{
    lemma_table_bounds(zoom);
    let w = cell_width(zoom);
    let den = row_pitch_den(zoom);
    let num = row_pitch_num(zoom);
    assert(-0x8000_0000_0000_0000 * 2219190000 <= col * w <= 0x8000_0000_0000_0000 * 2219190000)
        by (nonlinear_arith)
        requires
            -0x8000_0000_0000_0000 <= col < 0x8000_0000_0000_0000,
            0 < w <= 2219190000,
    ;
    assert(0 <= parity(row) * (w / 2) <= w) by (nonlinear_arith)
        requires
            0 <= parity(row) <= 1,
            w > 0,
    ;
    let limit: int = 0x8000_0000_0000_0000int * 1921874916int;
    assert(-(limit * den) <= row * num <= limit * den) by (nonlinear_arith)
        requires
            -0x8000_0000_0000_0000 <= row < 0x8000_0000_0000_0000,
            0 < num < 1921874916 * den,
            limit == 0x8000_0000_0000_0000 * 1921874916,
    ;
    lemma_round_div_bound(row * num, den, limit);
}

/// The centre of the cell that holds a point lies within one cell width of
/// the point in easting, and within half a row pitch and half a millimetre
/// of it in northing.
pub proof fn lemma_center_near_point(x: int, y: int, zoom: int)
    requires
        valid_zoom(zoom),
    ensures
        ({
            let (row, col) = cell_index(x, y, zoom);
            let dx = center_x(row, col, zoom) - x;
            let dy = center_y(row, zoom) - y;
            &&& -cell_width(zoom) <= dx <= cell_width(zoom)
            &&& -(row_pitch_num(zoom) + row_pitch_den(zoom)) <= 2 * row_pitch_den(zoom) * dy
                <= row_pitch_num(zoom) + row_pitch_den(zoom)
        }),
{
    lemma_table_bounds(zoom);
    let w = cell_width(zoom);
    let den = row_pitch_den(zoom);
    let num = row_pitch_num(zoom);
    let (row, col) = cell_index(x, y, zoom);
    let p = parity(row);
    lemma_round_div_nearest(x - p * w, w);
    assert(2 * (p * (w / 2)) == p * w && 0 <= p * w <= w) by (nonlinear_arith)
        requires
            w % 2 == 0,
            w > 0,
            0 <= p <= 1,
    ;
    assert(2 * (center_x(row, col, zoom) - x) == -2 * ((x - p * w) - col * w) - p * w);
    let cy = center_y(row, zoom);
    lemma_round_div_nearest(y * den, num);
    lemma_round_div_nearest(row * num, den);
    assert(2 * den * (cy - y) == 2 * (cy * den - row * num) + 2 * (row * num - y * den))
        by (nonlinear_arith);
}

/// Indexing the centre of a cell gives the same row, and the same column
/// exactly when the cell [`recentres`]. Otherwise the column moves back by
/// one.
pub proof fn lemma_index_of_center(row: int, col: int, zoom: int)
    requires
        valid_zoom(zoom),
    ensures
        row_of(center_y(row, zoom), zoom) == row,
        recentres(row, col) ==> cell_index(center_x(row, col, zoom), center_y(row, zoom), zoom)
            == (row, col),
        !recentres(row, col) ==> cell_index(
            center_x(row, col, zoom),
            center_y(row, zoom),
            zoom,
        ) == (row, col - 1),
{
    lemma_table_bounds(zoom);
    let w = cell_width(zoom);
    let den = row_pitch_den(zoom);
    let num = row_pitch_num(zoom);
    let cy = center_y(row, zoom);
    lemma_round_div_nearest(row * num, den);
    assert(is_nearest(cy * den, num, row)) by {
        assert(cy * den - row * num == -(row * num - cy * den));
    }
    lemma_round_div_unique(cy * den, num, row);
    let p = parity(row);
    let cx = center_x(row, col, zoom);
    let n = cx - p * w;
    assert(2 * (p * (w / 2)) == p * w && p * w == if p == 0 {
        0
    } else {
        w
    }) by (nonlinear_arith)
        requires
            w % 2 == 0,
            0 <= p <= 1,
    ;
    if p == 0 {
        lemma_round_div_multiple(col, w);
    } else {
        assert(2 * n == 2 * (col * w) - w);
        if col >= 1 {
            assert(col * w >= w) by (nonlinear_arith)
                requires
                    col >= 1,
                    w > 0,
            ;
            lemma_round_div_unique(n, w, col);
        } else {
            assert(col * w <= 0) by (nonlinear_arith)
                requires
                    col <= 0,
                    w > 0,
            ;
            assert((col - 1) * w == col * w - w) by (nonlinear_arith);
            lemma_round_div_unique(n, w, col - 1);
        }
    }
}

/// Indexing a point, taking the centre of its cell, and indexing that
/// centre stays at the cell, and so at the same centre within one pitch of
/// the point, however often it is repeated, provided the cell
/// [`recentres`].
pub proof fn lemma_repeated_indexing(x: int, y: int, zoom: int)
    requires
        valid_zoom(zoom),
        recentres(cell_index(x, y, zoom).0, cell_index(x, y, zoom).1),
    ensures
        ({
            let (row, col) = cell_index(x, y, zoom);
            let cx = center_x(row, col, zoom);
            let cy = center_y(row, zoom);
            let (row2, col2) = cell_index(cx, cy, zoom);
            &&& (row2, col2) == (row, col)
            &&& center_x(row2, col2, zoom) == cx
            &&& center_y(row2, zoom) == cy
            &&& -cell_width(zoom) <= cx - x <= cell_width(zoom)
            &&& -(row_pitch_num(zoom) + row_pitch_den(zoom)) <= 2 * row_pitch_den(zoom) * (cy - y)
                <= row_pitch_num(zoom) + row_pitch_den(zoom)
        }),
{
    let (row, col) = cell_index(x, y, zoom);
    lemma_center_near_point(x, y, zoom);
    lemma_index_of_center(row, col, zoom);
}

/// Different cells of one zoom level have different centres.
pub proof fn lemma_center_injective(row1: int, col1: int, row2: int, col2: int, zoom: int)
    requires
        valid_zoom(zoom),
        center_x(row1, col1, zoom) == center_x(row2, col2, zoom),
        center_y(row1, zoom) == center_y(row2, zoom),
    ensures
        row1 == row2,
        col1 == col2,
{
    lemma_index_of_center(row1, col1, zoom);
    lemma_index_of_center(row2, col2, zoom);
    lemma_table_bounds(zoom);
    let w = cell_width(zoom);
    assert(col1 * w == col2 * w);
    assert(col1 == col2) by (nonlinear_arith)
        requires
            col1 * w == col2 * w,
            w > 0,
    ;
}

/// Row and column of the cell that holds `coord` at zoom level `z`.
/// A zoom level above 15 is rejected; the position itself is never
/// rejected, wherever it lies.
pub fn point_to_hex(coord: &Coord, z: u8) -> (r: Result<(i64, i64), N3gbError>)
    requires
        coord.in_range(),
    ensures
        z > MAX_ZOOM_LEVEL ==> r == Err::<(i64, i64), _>(N3gbError::InvalidZoomLevel(z)),
        z <= MAX_ZOOM_LEVEL ==> (r matches Ok((row, col)) && (row as int, col as int)
            == cell_index(coord.x as int, coord.y as int, z as int)),
{
    if z > MAX_ZOOM_LEVEL {
        return Err(N3gbError::InvalidZoomLevel(z));
    }
    let width: i128 = cell_width_mm(z) as i128;
    let (num, den) = row_pitch(z);
    proof {
        lemma_table_bounds(z as int);
        lemma_row_bound(coord.y as int, z as int);
    }
    let row: i128 = div_round(coord.y * (den as i128), num as i128);
    proof {
        lemma_col_bound(coord.x as int, row as int, z as int);
        assert(0 <= parity(row as int) * width <= width) by (nonlinear_arith)
            requires
                0 <= parity(row as int) <= 1,
                width > 0,
        ;
    }
    let odd: i128 = if row % 2 == 0 {
        0
    } else {
        1
    };
    let col: i128 = div_round(coord.x - odd * width, width);
    Ok((row as i64, col as i64))
}

/// Centre of the cell at (`row`, `col`) at zoom level `z`. A zoom level
/// above 15 is rejected.
pub fn hex_to_point(row: i64, col: i64, z: u8) -> (r: Result<Coord, N3gbError>)
    ensures
        z > MAX_ZOOM_LEVEL ==> r == Err::<Coord, _>(N3gbError::InvalidZoomLevel(z)),
        z <= MAX_ZOOM_LEVEL ==> (r matches Ok(c) && c.x == center_x(
            row as int,
            col as int,
            z as int,
        ) && c.y == center_y(row as int, z as int)),
{
    if z > MAX_ZOOM_LEVEL {
        return Err(N3gbError::InvalidZoomLevel(z));
    }
    let width: i128 = cell_width_mm(z) as i128;
    let (num, den) = row_pitch(z);
    proof {
        lemma_table_bounds(z as int);
        assert(-0x8000_0000_0000_0000 * 2219190000 <= col * width <= 0x8000_0000_0000_0000
            * 2219190000) by (nonlinear_arith)
            requires
                -0x8000_0000_0000_0000 <= col < 0x8000_0000_0000_0000,
                0 < width <= 2219190000,
        ;
        assert(-0x8000_0000_0000_0000 * 84870489570874995 <= row * num <= 0x8000_0000_0000_0000
            * 84870489570874995) by (nonlinear_arith)
            requires
                -0x8000_0000_0000_0000 <= row < 0x8000_0000_0000_0000,
                0 < num <= 84870489570874995,
        ;
    }
    let half: i128 = width / 2;
    let odd: i128 = if row % 2 == 0 {
        0
    } else {
        1
    };
    proof {
        assert(0 <= odd * half <= half) by (nonlinear_arith)
            requires
                0 <= odd <= 1,
                half >= 0,
        ;
    }
    let x: i128 = (col as i128) * width + odd * half;
    let y: i128 = div_round((row as i128) * (num as i128), den as i128);
    Ok(Coord { x, y })
}

} // verus!
