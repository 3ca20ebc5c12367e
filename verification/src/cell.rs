use crate::constants::{
    cell_radius, cell_radius_mm, CENTER_LIMIT, GEOMETRY_LIMIT, IDENTIFIER_VERSION,
    MAX_ZOOM_LEVEL, OUTLINE_LIMIT,
};
use crate::coord::Coord;
use crate::error::N3gbError;
use crate::geometry::{create_hexagon, hexagon_ring, ring_points, Polygon};
use crate::grid::{
    cell_index, center_x, center_y, col_of, hex_to_point, lemma_center_bound,
    lemma_index_of_center, point_to_hex, recentres, row_of,
};
use crate::identifier::{
    decode_hex_identifier, generate_hex_identifier, identifier_fields, identifier_text, scaled,
};
use vstd::prelude::*;

verus! {

/// One hexagonal cell of the grid.
#[derive(Debug, Clone, PartialEq)]
pub struct HexCell {
    /// Identifier of the cell: its centre and zoom level, encoded.
    pub id: String,
    /// Centre of the cell, in millimetres.
    pub center: Coord,
    /// Zoom level, 0 to 15; a higher level has smaller cells.
    pub zoom_level: u8,
    /// Row of the cell in the grid of its zoom level.
    pub row: i64,
    /// Column of the cell in the grid of its zoom level.
    pub col: i64,
}

/// The mathematical value of a [`HexCell`].
pub ghost struct HexCellView {
    pub id: Seq<char>,
    pub x: int,
    pub y: int,
    pub zoom_level: u8,
    pub row: int,
    pub col: int,
}

impl View for HexCell {
    type V = HexCellView;

    open spec fn view(&self) -> HexCellView {
        HexCellView {
            id: self.id@,
            x: self.center.x as int,
            y: self.center.y as int,
            zoom_level: self.zoom_level,
            row: self.row as int,
            col: self.col as int,
        }
    }
}

/// The cell at (`row`, `col`) of zoom level `zoom`: its centre is that of
/// the grid position, and its identifier encodes that centre.
pub open spec fn cell_at(row: int, col: int, zoom: u8) -> HexCellView {
    let x = center_x(row, col, zoom as int);
    let y = center_y(row, zoom as int);
    HexCellView { id: identifier_text(x, y, zoom), x, y, zoom_level: zoom, row, col }
}

/// The cell that holds the point (`x`, `y`) at zoom level `zoom`.
pub open spec fn cell_of_point(x: int, y: int, zoom: u8) -> HexCellView {
    cell_at(row_of(y, zoom as int), col_of(x, row_of(y, zoom as int), zoom as int), zoom)
}

/// What an identifier restores to: the cell whose centre and zoom level it
/// carries, indexed at that zoom level, or the reason it does not decode. A
/// zoom level above 15 in an otherwise sound identifier is rejected.
pub open spec fn cell_of_identifier(id: Seq<char>) -> Result<HexCellView, N3gbError> {
    match identifier_fields(id) {
        Err(e) => Err(e),
        Ok((_, easting, northing, zoom)) => if zoom > MAX_ZOOM_LEVEL {
            Err(N3gbError::InvalidZoomLevel(zoom))
        } else {
            let (row, col) = cell_index(easting as int, northing as int, zoom as int);
            Ok(
                HexCellView {
                    id,
                    x: easting as int,
                    y: northing as int,
                    zoom_level: zoom,
                    row,
                    col,
                },
            )
        },
    }
}

impl HexCellView {
    /// What holds of every cell that this library builds: the zoom level is
    /// one of the sixteen, the centre is within [`CENTER_LIMIT`], the
    /// identifier is the encoding of the centre and decodes to it, and row
    /// and column either place the centre or are where the centre is
    /// indexed.
    pub open spec fn wf(&self) -> bool {
        &&& self.zoom_level <= MAX_ZOOM_LEVEL
        &&& -CENTER_LIMIT <= self.x <= CENTER_LIMIT
        &&& -CENTER_LIMIT <= self.y <= CENTER_LIMIT
        &&& self.id == identifier_text(self.x, self.y, self.zoom_level)
        &&& identifier_fields(self.id) == Ok::<_, N3gbError>(
            (IDENTIFIER_VERSION, scaled(self.x), scaled(self.y), self.zoom_level),
        )
        &&& {
            ||| self.x == center_x(self.row, self.col, self.zoom_level as int) && self.y
                == center_y(self.row, self.zoom_level as int)
            ||| (self.row, self.col) == cell_index(self.x, self.y, self.zoom_level as int)
        }
    }
}

/// A sound cell that sits at the centre of its row and column, with that
/// centre in the range an identifier can carry, is restored from its
/// identifier exactly, provided the cell [`recentres`].
pub proof fn lemma_restored_from_identifier(c: HexCellView)
    requires
        c.wf(),
        c == cell_at(c.row, c.col, c.zoom_level),
        0 <= c.x <= u64::MAX,
        0 <= c.y <= u64::MAX,
        recentres(c.row, c.col),
    ensures
        cell_of_identifier(c.id) == Ok::<_, N3gbError>(c),
{
    lemma_index_of_center(c.row, c.col, c.zoom_level as int);
}

impl HexCell {
    /// See [`HexCellView::wf`].
    pub open spec fn wf(&self) -> bool {
        self@.wf()
    }

    /// A cell with the given fields, as they are.
    pub fn new(id: String, center: Coord, zoom_level: u8, row: i64, col: i64) -> (cell: HexCell)
        ensures
            cell.id == id,
            cell.center == center,
            cell.zoom_level == zoom_level,
            cell.row == row,
            cell.col == col,
    {
        HexCell { id, center, zoom_level, row, col }
    }

    /// The cell at (`row`, `col`) of zoom level `zoom`, whose centre the
    /// caller has already computed.
    pub(crate) fn placed(center: Coord, row: i64, col: i64, zoom: u8) -> (cell: HexCell)
        requires
            zoom <= MAX_ZOOM_LEVEL,
            center.x == center_x(row as int, col as int, zoom as int),
            center.y == center_y(row as int, zoom as int),
        ensures
            cell@ == cell_at(row as int, col as int, zoom),
            cell.wf(),
    {
        proof {
            lemma_center_bound(row as int, col as int, zoom as int);
        }
        let id = generate_hex_identifier(center.x, center.y, zoom);
        HexCell { id, center, zoom_level: zoom, row, col }
    }

    /// The cell at (`row`, `col`) of zoom level `zoom`.
    pub fn at_index(row: i64, col: i64, zoom: u8) -> (cell: HexCell)
        requires
            zoom <= MAX_ZOOM_LEVEL,
        ensures
            cell@ == cell_at(row as int, col as int, zoom),
            cell.wf(),
    {
        let center = match hex_to_point(row, col, zoom) {
            Ok(c) => c,
            Err(_) => Coord { x: 0, y: 0 },
        };
        HexCell::placed(center, row, col, zoom)
    }

    /// A copy of the cell.
    pub fn duplicate(&self) -> (cell: HexCell)
        ensures
            cell@ == self@,
    {
        HexCell {
            id: self.id.clone(),
            center: self.center,
            zoom_level: self.zoom_level,
            row: self.row,
            col: self.col,
        }
    }

    /// Restores a cell from its identifier: the centre and zoom level are
    /// those the identifier carries, row and column those of the centre.
    /// Fails as decoding fails, and with `InvalidZoomLevel` where the zoom
    /// level it carries is above 15.
    pub fn from_hex_id(id: &str) -> (r: Result<HexCell, N3gbError>)
        ensures
            match r {
                Ok(cell) => cell_of_identifier(id@) == Ok::<_, N3gbError>(cell@) && cell.wf(),
                Err(e) => cell_of_identifier(id@) == Err::<HexCellView, _>(e),
            },
    {
        let (_, easting, northing, zoom) = match decode_hex_identifier(id) {
            Ok(fields) => fields,
            Err(e) => { return Err(e); },
        };
        let center = Coord { x: easting as i128, y: northing as i128 };
        let (row, col) = match point_to_hex(&center, zoom) {
            Ok(index) => index,
            Err(e) => { return Err(e); },
        };
        Ok(HexCell { id: id.to_owned(), center, zoom_level: zoom, row, col })
    }

    /// The cell that holds `coord` at zoom level `zoom`. A zoom level above
    /// 15 is rejected.
    pub fn from_bng(coord: &Coord, zoom: u8) -> (r: Result<HexCell, N3gbError>)
        requires
            coord.in_range(),
        ensures
            zoom > MAX_ZOOM_LEVEL ==> r == Err::<HexCell, _>(N3gbError::InvalidZoomLevel(zoom)),
            zoom <= MAX_ZOOM_LEVEL ==> (r matches Ok(cell) && cell@ == cell_of_point(
                coord.x as int,
                coord.y as int,
                zoom,
            ) && cell.wf()),
    {
        let (row, col) = match point_to_hex(coord, zoom) {
            Ok(index) => index,
            Err(e) => { return Err(e); },
        };
        Ok(HexCell::at_index(row, col, zoom))
    }

    /// Easting of the centre, in millimetres.
    pub fn easting(&self) -> (x: i128)
        ensures
            x == self.center.x,
    {
        self.center.x
    }

    /// Northing of the centre, in millimetres.
    pub fn northing(&self) -> (y: i128)
        ensures
            y == self.center.y,
    {
        self.center.y
    }

    /// The outline of the cell: the hexagon round its centre with the
    /// circumradius of its zoom level, as a closed ring of seven positions.
    /// Every sound cell has one: its centre is within [`CENTER_LIMIT`].
    pub fn to_polygon(&self) -> (hexagon: Polygon)
        requires
            self.zoom_level <= MAX_ZOOM_LEVEL,
            -OUTLINE_LIMIT <= self.center.x <= OUTLINE_LIMIT,
            -OUTLINE_LIMIT <= self.center.y <= OUTLINE_LIMIT,
        ensures
            ring_points(hexagon.exterior@) == hexagon_ring(
                self.center.x as int,
                self.center.y as int,
                cell_radius(self.zoom_level as int),
            ),
            hexagon.exterior@.len() == 7,
            hexagon.exterior@[0] == hexagon.exterior@[6],
            hexagon.interiors@.len() == 0,
            -2 * GEOMETRY_LIMIT <= self.center.x <= 2 * GEOMETRY_LIMIT && -2 * GEOMETRY_LIMIT
                <= self.center.y <= 2 * GEOMETRY_LIMIT ==> hexagon.within(3 * GEOMETRY_LIMIT),
    {
        create_hexagon(self.center.x, self.center.y, cell_radius_mm(self.zoom_level))
    }
}

} // verus!
