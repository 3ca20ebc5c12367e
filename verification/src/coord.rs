use crate::constants::COORD_LIMIT;
use vstd::prelude::*;

verus! {

/// Coordinate reference system of a coordinate handed to the library.
#[derive(Debug, Clone, Copy, PartialEq, Eq, Structural)]
pub enum Crs {
    /// Longitude and latitude.
    Wgs84,
    /// British National Grid eastings and northings.
    Bng,
}

impl Default for Crs {
    fn default() -> (crs: Crs)
        ensures
            crs == Crs::Wgs84,
    {
        Crs::Wgs84
    }
}

/// A position on the national grid in whole millimetres: `x` is the
/// easting, `y` the northing.
#[derive(Debug, Clone, Copy, PartialEq, Eq, Structural)]
pub struct Coord {
    pub x: i128,
    pub y: i128,
}

impl Coord {
    /// Whether both components are within [`COORD_LIMIT`] of zero, so that
    /// the position can be indexed.
    pub open spec fn in_range(&self) -> bool {
        &&& -COORD_LIMIT <= self.x <= COORD_LIMIT
        &&& -COORD_LIMIT <= self.y <= COORD_LIMIT
    }

    /// The position with easting `x` and northing `y`.
    pub fn new(x: i128, y: i128) -> (c: Coord)
        ensures
            c.x == x,
            c.y == y,
    {
        Coord { x, y }
    }

    /// Easting in millimetres.
    pub fn x(&self) -> (x: i128)
        ensures
            x == self.x,
    {
        self.x
    }

    /// Northing in millimetres.
    pub fn y(&self) -> (y: i128)
        ensures
            y == self.y,
    {
        self.y
    }

    /// Tests [`Coord::in_range`].
    pub fn is_in_range(&self) -> (b: bool)
        ensures
            b == self.in_range(),
    {
        -COORD_LIMIT <= self.x && self.x <= COORD_LIMIT && -COORD_LIMIT <= self.y && self.y
            <= COORD_LIMIT
    }
}

} // verus!
