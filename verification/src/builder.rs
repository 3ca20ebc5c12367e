use crate::cell::HexCellView;
use crate::constants::GEOMETRY_LIMIT;
use crate::coord::Coord;
use crate::extent::{extent_cells, grid_cells};
use crate::geometry::{MultiPolygon, Polygon, Rect};
use crate::hex_grid::{multipolygon_cells, polygon_cells, HexGrid};
use vstd::prelude::*;

verus! {

/// Collects what a grid is to be made of: a zoom level, and an extent, a
/// polygon or several polygons.
#[derive(Debug, Clone)]
pub struct HexGridBuilder {
    pub zoom_level: Option<u8>,
    pub min_x: Option<i128>,
    pub min_y: Option<i128>,
    pub max_x: Option<i128>,
    pub max_y: Option<i128>,
    pub polygon: Option<Polygon>,
    pub multipolygon: Option<MultiPolygon>,
}

impl Default for HexGridBuilder {
    fn default() -> (b: HexGridBuilder)
        ensures
            b == HexGridBuilder::empty(),
    {
        HexGridBuilder::new()
    }
}

impl HexGridBuilder {
    /// The builder with nothing set.
    pub open spec fn empty() -> HexGridBuilder {
        HexGridBuilder {
            zoom_level: None,
            min_x: None,
            min_y: None,
            max_x: None,
            max_y: None,
            polygon: None,
            multipolygon: None,
        }
    }

    /// Whether a grid can be built: the zoom level is set, and so is a
    /// source whose positions are within the geometry limit. Several
    /// polygons go before one polygon, and one polygon before an extent.
    pub open spec fn ready(&self) -> bool {
        &&& self.zoom_level is Some
        &&& match (self.multipolygon, self.polygon) {
            (Some(mp), _) => forall|i: int|
                0 <= i < mp.0@.len() ==> (#[trigger] mp.0@[i]).within(GEOMETRY_LIMIT as int),
            (None, Some(p)) => p.within(GEOMETRY_LIMIT as int),
            (None, None) => {
                &&& self.min_x matches Some(v) && -GEOMETRY_LIMIT <= v <= GEOMETRY_LIMIT
                &&& self.min_y matches Some(v) && -GEOMETRY_LIMIT <= v <= GEOMETRY_LIMIT
                &&& self.max_x matches Some(v) && -GEOMETRY_LIMIT <= v <= GEOMETRY_LIMIT
                &&& self.max_y matches Some(v) && -GEOMETRY_LIMIT <= v <= GEOMETRY_LIMIT
            },
        }
    }

    /// The cells of the grid that [`HexGridBuilder::build`] makes.
    pub open spec fn planned_cells(&self) -> Seq<HexCellView>
        recommends
            self.ready(),
    {
        let zoom = self.zoom_level->Some_0;
        match (self.multipolygon, self.polygon) {
            (Some(mp), _) => multipolygon_cells(mp.0@, zoom),
            (None, Some(p)) => polygon_cells(p, zoom),
            (None, None) => extent_cells(
                self.min_x->Some_0 as int,
                self.min_y->Some_0 as int,
                self.max_x->Some_0 as int,
                self.max_y->Some_0 as int,
                zoom,
            ),
        }
    }

    /// A builder with nothing set.
    pub fn new() -> (b: HexGridBuilder)
        ensures
            b == HexGridBuilder::empty(),
    {
        HexGridBuilder {
            zoom_level: None,
            min_x: None,
            min_y: None,
            max_x: None,
            max_y: None,
            polygon: None,
            multipolygon: None,
        }
    }

    /// Sets the zoom level.
    pub fn zoom_level(self, zoom_level: u8) -> (b: HexGridBuilder)
        ensures
            b == (HexGridBuilder { zoom_level: Some(zoom_level), ..self }),
    {
        let mut b = self;
        b.zoom_level = Some(zoom_level);
        b
    }

    /// Sets the extent to `rect`.
    pub fn rect(self, rect: &Rect) -> (b: HexGridBuilder)
        ensures
            b == (HexGridBuilder {
                min_x: Some(rect.spec_min().x),
                min_y: Some(rect.spec_min().y),
                max_x: Some(rect.spec_max().x),
                max_y: Some(rect.spec_max().y),
                ..self
            }),
    {
        let mut b = self;
        b.min_x = Some(rect.min().x);
        b.min_y = Some(rect.min().y);
        b.max_x = Some(rect.max().x);
        b.max_y = Some(rect.max().y);
        b
    }

    /// Sets the extent to the one from `min` to `max`.
    pub fn bng_extent(self, min: &Coord, max: &Coord) -> (b: HexGridBuilder)
        ensures
            b == (HexGridBuilder {
                min_x: Some(min.x),
                min_y: Some(min.y),
                max_x: Some(max.x),
                max_y: Some(max.y),
                ..self
            }),
    {
        let mut b = self;
        b.min_x = Some(min.x);
        b.min_y = Some(min.y);
        b.max_x = Some(max.x);
        b.max_y = Some(max.y);
        b
    }

    /// Sets the extent to the one from (`min_x`, `min_y`) to (`max_x`,
    /// `max_y`).
    pub fn extent(self, min_x: i128, min_y: i128, max_x: i128, max_y: i128) -> (b: HexGridBuilder)
        ensures
            b == (HexGridBuilder {
                min_x: Some(min_x),
                min_y: Some(min_y),
                max_x: Some(max_x),
                max_y: Some(max_y),
                ..self
            }),
    {
        let mut b = self;
        b.min_x = Some(min_x);
        b.min_y = Some(min_y);
        b.max_x = Some(max_x);
        b.max_y = Some(max_y);
        b
    }

    /// Sets the polygon to cover.
    pub fn bng_polygon(self, polygon: Polygon) -> (b: HexGridBuilder)
        ensures
            b == (HexGridBuilder { polygon: Some(polygon), ..self }),
    {
        let mut b = self;
        b.polygon = Some(polygon);
        b
    }

    /// Sets the polygons to cover.
    pub fn bng_multipolygon(self, multipolygon: MultiPolygon) -> (b: HexGridBuilder)
        ensures
            b == (HexGridBuilder { multipolygon: Some(multipolygon), ..self }),
    {
        let mut b = self;
        b.multipolygon = Some(multipolygon);
        b
    }

    /// Builds the grid: from the polygons if they are set, else from the
    /// polygon if it is set, else from the extent.
    pub fn build(self) -> (grid: HexGrid)
        requires
            self.ready(),
        ensures
            grid@ == self.planned_cells(),
            grid.zoom() == self.zoom_level->Some_0,
            grid_cells(grid@, grid.zoom()),
    {
        let zoom_level = match self.zoom_level {
            Some(z) => z,
            None => 0,
        };
        match (self.multipolygon, self.polygon) {
            (Some(mp), _) => HexGrid::from_bng_multipolygon(&mp, zoom_level),
            (None, Some(p)) => HexGrid::from_bng_polygon(&p, zoom_level),
            (None, None) => {
                match (self.min_x, self.min_y, self.max_x, self.max_y) {
                    (Some(min_x), Some(min_y), Some(max_x), Some(max_y)) => HexGrid::from_extent(
                        min_x,
                        min_y,
                        max_x,
                        max_y,
                        zoom_level,
                    ),
                    _ => HexGrid::from_extent(0, 0, 0, 0, zoom_level),
                }
            },
        }
    }
}

} // verus!
