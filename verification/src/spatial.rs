use crate::constants::GEOMETRY_LIMIT;
use crate::coord::Coord;
use crate::geometry::{ring_points, rings_points, Polygon};
use geo::Intersects;
use vstd::prelude::*;

verus! {

/// Whether two polygons, each given by its outer ring and its holes, share
/// a point, as the `geo` crate's `Intersects` decides it for polygons with
/// integer coordinates. Touching counts.
pub uninterp spec fn polygons_intersect(
    a_exterior: Seq<(int, int)>,
    a_interiors: Seq<Seq<(int, int)>>,
    b_exterior: Seq<(int, int)>,
    b_interiors: Seq<Seq<(int, int)>>,
) -> bool;

/// Calls `geo::Intersects::intersects` on two `geo::Polygon`s with the
/// positions of `a` and of `b`.
///
/// Trusted: the result is what `geo` decides for these rings. With integer
/// coordinates `geo` computes cross products of coordinate differences in
/// the coordinate type; the bound keeps them within 128 bits.
#[verifier::external_body]
pub(crate) fn intersects(a: &Polygon, b: &Polygon) -> (r: bool)
    requires
        a.within(3 * GEOMETRY_LIMIT),
        b.within(3 * GEOMETRY_LIMIT),
    ensures
        r == polygons_intersect(
            ring_points(a.exterior@),
            rings_points(a.interiors@),
            ring_points(b.exterior@),
            rings_points(b.interiors@),
        ),
{
    let ring = |r: &Vec<Coord>|
        geo::LineString::from(r.iter().map(|c| (c.x, c.y)).collect::<Vec<_>>());
    let poly = |p: &Polygon|
        geo::Polygon::new(ring(&p.exterior), p.interiors.iter().map(ring).collect());
    poly(a).intersects(&poly(b))
}

} // verus!
