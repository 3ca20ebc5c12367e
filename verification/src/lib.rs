//! A hexagonal spatial index over the British National Grid.
//!
//! Positions are whole millimetres east and north of the grid origin. At
//! each of sixteen zoom levels the plane is tiled by hexagons laid like
//! bricks: rows one and a half circumradii apart, odd rows shifted by half a
//! cell width. A cell is addressed by row and column and named by an
//! identifier that encodes its centre and zoom level.
//!
//! Every function states what it returns as a mathematical function of its
//! arguments, and the proof functions beside them state what holds between
//! them.

pub mod base64url;
pub mod builder;
pub mod cell;
pub mod constants;
pub mod coord;
pub mod coverage;
pub mod csv;
pub mod error;
pub mod extent;
pub mod geometry;
pub mod grid;
pub mod hex_grid;
pub mod identifier;
pub mod rounding;
pub mod spatial;

pub use builder::HexGridBuilder;
pub use cell::HexCell;
pub use constants::{
    CELL_RADIUS, CELL_RADIUS_SCALE, CELL_WIDTHS, COORD_LIMIT, GEOMETRY_LIMIT, GRID_EXTENTS,
    IDENTIFIER_VERSION, MAX_ZOOM_LEVEL, SCALE_FACTOR,
};
pub use coord::{Coord, Crs};
pub use coverage::Geometry;
pub use csv::{CoordinateSource, CsvHexConfig, GeometryFormat, SourceIndices};
pub use error::N3gbError;
pub use extent::generate_cells_for_extent;
pub use geometry::{create_hexagon, create_hexagon_from_point, MultiPolygon, Polygon, Rect};
pub use grid::{hex_to_point, point_to_hex};
pub use hex_grid::HexGrid;
pub use identifier::{
    decode_hex_identifier, decode_record, encode_record, generate_hex_identifier,
    generate_identifier,
};
