use crate::rounding::{div_round, lemma_round_div_bound, lemma_round_div_nearest, round_div};
use vstd::prelude::*;

verus! {

/// Version byte written into every identifier.
pub const IDENTIFIER_VERSION: u8 = 1;

/// Coordinates are whole millimetres: metres times this factor.
pub const SCALE_FACTOR: u64 = 1000;

/// Finest zoom level.
pub const MAX_ZOOM_LEVEL: u8 = 15;

/// Grid extent in millimetres: `[min_x, min_y, max_x, max_y]`.
pub const GRID_EXTENTS: [i128; 4] = [0, 0, 750000000, 1350000000];

/// Horizontal cell pitch per zoom level, in millimetres.
pub const CELL_WIDTHS: [u64; 16] = [
    2219190000,
    836660000,
    316116000,
    119476000,
    45154000,
    17060000,
    6443000,
    2424000,
    917000,
    346000,
    130000,
    49000,
    18000,
    7000,
    3000,
    1000,
];

/// Decimal digits of the hexagon circumradius per zoom level. The radius in
/// metres is `CELL_RADIUS[z] / CELL_RADIUS_SCALE[z]`, kept as an exact
/// fraction so that no digit of the tabulated value is lost.
pub const CELL_RADIUS: [u64; 16] = [
    12812499438829257,
    4830458762201923,
    18250965769514776,
    6897950076169973,
    2606967405498836,
    9849595592375015,
    3719867784388759,
    1399497052515653,
    5294301968468868,
    19976319313961054,
    7505553499465135,
    28290163190291665,
    10392304845413264,
    4041451884327381,
    17320508075688774,
    5773502691896258,
];

/// Power of ten by which [`CELL_RADIUS`] is scaled, per zoom level.
pub const CELL_RADIUS_SCALE: [u64; 16] = [
    10000000000,
    10000000000,
    100000000000,
    100000000000,
    100000000000,
    1000000000000,
    1000000000000,
    1000000000000,
    10000000000000,
    100000000000000,
    100000000000000,
    1000000000000000,
    1000000000000000,
    1000000000000000,
    10000000000000000,
    10000000000000000,
];

/// Largest magnitude, in millimetres, of a coordinate that can be indexed:
/// beyond it a row or column index would leave the 64-bit range.
pub const COORD_LIMIT: i128 = 1000000000000000000000;

/// Largest magnitude, in millimetres, of a coordinate of a line or polygon.
/// Within it, squared lengths and cross products fit in 128 bits.
pub const GEOMETRY_LIMIT: i128 = 1000000000000000000;

/// Largest magnitude, in millimetres, of the centre of a cell: no row and
/// column of 64 bits, and no identifier, gives a centre beyond it.
pub const CENTER_LIMIT: i128 = 100000000000000000000000000000;

/// Largest magnitude, in millimetres, of a centre whose outline can be
/// computed at every zoom level: the greatest circumradius short of the
/// end of the 128-bit range.
pub const OUTLINE_LIMIT: i128 = 170141183460469231731687303714584105727;

/// Whether `zoom` is one of the sixteen levels.
pub open spec fn valid_zoom(zoom: int) -> bool {
    0 <= zoom <= 15
}

/// Horizontal cell pitch at `zoom`, in millimetres.
pub open spec fn cell_width(zoom: int) -> int
    recommends
        valid_zoom(zoom),
{
    CELL_WIDTHS[zoom] as int
}

/// Numerator of the row pitch at `zoom`. The row pitch is one and a half
/// radii; in millimetres it is `row_pitch_num / row_pitch_den`.
pub open spec fn row_pitch_num(zoom: int) -> int
    recommends
        valid_zoom(zoom),
{
    3 * CELL_RADIUS[zoom]
}

/// Denominator of the row pitch at `zoom`.
pub open spec fn row_pitch_den(zoom: int) -> int
    recommends
        valid_zoom(zoom),
{
    CELL_RADIUS_SCALE[zoom] as int / 500
}

/// Hexagon circumradius at `zoom`, to the nearest millimetre.
pub open spec fn cell_radius(zoom: int) -> int
    recommends
        valid_zoom(zoom),
{
    round_div(1000 * CELL_RADIUS[zoom], CELL_RADIUS_SCALE[zoom] as int)
}

/// Bounds on the tables that every proof about the grid starts from.
pub proof fn lemma_table_bounds(zoom: int)
    requires
        valid_zoom(zoom),
    ensures
        1000 <= cell_width(zoom) <= 2219190000,
        cell_width(zoom) % 2 == 0,
        0 < row_pitch_den(zoom) <= 20000000000000,
        row_pitch_den(zoom) % 2 == 0,
        0 < row_pitch_num(zoom) <= 84870489570874995,
        866 * row_pitch_den(zoom) < row_pitch_num(zoom),
        row_pitch_num(zoom) < 1921874916 * row_pitch_den(zoom),
{
}

/// Horizontal cell pitch at `zoom`, in millimetres.
pub fn cell_width_mm(zoom: u8) -> (w: u64)
    requires
        zoom <= MAX_ZOOM_LEVEL,
    ensures
        w == cell_width(zoom as int),
{
    CELL_WIDTHS[zoom as usize]
}

/// The row pitch at `zoom` as a fraction of millimetres: numerator, then
/// denominator.
pub fn row_pitch(zoom: u8) -> (p: (u64, u64))
    requires
        zoom <= MAX_ZOOM_LEVEL,
    ensures
        p.0 == row_pitch_num(zoom as int),
        p.1 == row_pitch_den(zoom as int),
{
    proof {
        lemma_table_bounds(zoom as int);
    }
    (3 * CELL_RADIUS[zoom as usize], CELL_RADIUS_SCALE[zoom as usize] / 500)
}

/// Hexagon circumradius at `zoom`, to the nearest millimetre.
pub fn cell_radius_mm(zoom: u8) -> (r: u64)
    requires
        zoom <= MAX_ZOOM_LEVEL,
    ensures
        r == cell_radius(zoom as int),
        0 < r <= 1300000000,
{
    let digits: i128 = CELL_RADIUS[zoom as usize] as i128;
    let scale: i128 = CELL_RADIUS_SCALE[zoom as usize] as i128;
    proof {
        lemma_table_bounds(zoom as int);
        assert(1000 * digits <= 1300000000 * scale);
        lemma_round_div_bound(1000 * digits, scale as int, 1300000000);
        lemma_round_div_nearest(1000 * digits, scale as int);
        assert(2 * (1000 * digits) > scale);
        let q = round_div(1000 * digits, scale as int);
        assert(q > 0) by (nonlinear_arith)
            requires
                2 * (1000 * digits - q * scale) < scale,
                2 * (1000 * digits) > scale,
                scale > 0,
        ;
    }
    div_round(1000 * digits, scale) as u64
}

} // verus!
