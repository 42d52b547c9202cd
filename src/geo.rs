//! Locations on the globe in fixed point: every coordinate is an integer
//! number of thousandths of a degree (millidegrees), and every depth an
//! integer number of millimetres.
use vstd::prelude::*;
use vstd::arithmetic::div_mod::lemma_hoist_over_denominator;

verus! {

/// Half a turn, in millidegrees.
pub const HALF_TURN: i64 = 180000;

/// A whole turn, in millidegrees.
pub const FULL_TURN: i64 = 360000;

/// Maps a longitude given on [0, 360] degrees to [-180, 180].
pub open spec fn normalized_longitude(lon: int) -> int {
    if lon <= HALF_TURN {
        lon
    } else {
        lon - FULL_TURN
    }
}

/// Maps a longitude given on [0, 360] degrees to [-180, 180]: values above
/// half a turn lose a whole turn, all others stay as they are.
pub fn normalize_longitude(lon: i64) -> (r: i64)
    ensures
        r == normalized_longitude(lon as int),
{
    if lon <= HALF_TURN {
        lon
    } else {
        lon - FULL_TURN
    }
}

/// The raster's cells are one degree wide and centred on half degrees. Its
/// first column is centred on -179.5 degrees of longitude: cell-centre line
/// `k` of longitude is column `k + 180`.
pub const LON_ORIGIN_CELLS: i64 = 180;

/// The raster's first row is centred on -77.5 degrees of latitude: cell-centre
/// line `k` of latitude is row `k + 78`.
pub const LAT_ORIGIN_CELLS: i64 = 78;

/// A large multiple of a thousand that lifts every shifted `i64` above zero.
const LIFT: i128 = 10000000000000000000;

/// `LIFT` in degrees.
const LIFT_CELLS: i128 = 10000000000000000;

/// The cell-centre line at or below `m`, counted in degrees from 0.5:
/// the centre lies at `1000 * k + 500` millidegrees.
pub open spec fn cell_below(m: int) -> int {
    (m - 500) / 1000
}

/// The cell-centre line at or above `m`.
pub open spec fn cell_above(m: int) -> int {
    if (m - 500) % 1000 == 0 {
        cell_below(m)
    } else {
        cell_below(m) + 1
    }
}

/// The millidegree value of cell-centre line `k`.
pub open spec fn centre(k: int) -> int {
    1000 * k + 500
}

/// The four corners around a point, bottom left first and then clockwise,
/// as (latitude line, longitude line).
pub open spec fn corner(lon: int, lat: int, c: int) -> (int, int) {
    if c == 0 {
        (cell_below(lat), cell_below(lon))
    } else if c == 1 {
        (cell_above(lat), cell_below(lon))
    } else if c == 2 {
        (cell_above(lat), cell_above(lon))
    } else {
        (cell_below(lat), cell_above(lon))
    }
}

/// The squared distance from the point to corner `c`, in square millidegrees.
pub open spec fn corner_dist(lon: int, lat: int, c: int) -> int {
    let (klat, klon) = corner(lon, lat, c);
    (lon - centre(klon)) * (lon - centre(klon)) + (lat - centre(klat)) * (lat - centre(klat))
}

/// The nearest corner; of corners at the same distance, the first listed.
pub open spec fn nearest_corner(lon: int, lat: int) -> int {
    let d0 = corner_dist(lon, lat, 0);
    let d1 = corner_dist(lon, lat, 1);
    let d2 = corner_dist(lon, lat, 2);
    let d3 = corner_dist(lon, lat, 3);
    if d0 <= d1 && d0 <= d2 && d0 <= d3 {
        0
    } else if d1 <= d2 && d1 <= d3 {
        1
    } else if d2 <= d3 {
        2
    } else {
        3
    }
}

/// The raster cell (row, column) of the corner nearest to the point.
pub open spec fn raster_cell(lon: int, lat: int) -> (int, int) {
    let (klat, klon) = corner(lon, lat, nearest_corner(lon, lat));
    (klat + LAT_ORIGIN_CELLS, klon + LON_ORIGIN_CELLS)
}

/// A point that sits exactly on a cell centre is classified by that very
/// cell.
pub proof fn lemma_corner_point(klon: int, klat: int)
    ensures
        raster_cell(centre(klon), centre(klat)) == (klat + LAT_ORIGIN_CELLS, klon + LON_ORIGIN_CELLS),
{
    assert(centre(klon) - 500 == 1000 * klon);
    assert(centre(klat) - 500 == 1000 * klat);
    assert((1000 * klon) / 1000 == klon);
    assert((1000 * klat) / 1000 == klat);
    assert((1000 * klon) % 1000 == 0);
    assert((1000 * klat) % 1000 == 0);
    assert(cell_below(centre(klon)) == klon);
    assert(cell_above(centre(klon)) == klon);
    assert(cell_below(centre(klat)) == klat);
    assert(cell_above(centre(klat)) == klat);
}

/// The chosen corner is at least as near as every other one, and strictly
/// nearer than each corner listed before it: of equally near corners, the
/// one listed first (bottom left, then clockwise) wins.
pub proof fn lemma_nearest_first_minimum(lon: int, lat: int)
    ensures
        0 <= nearest_corner(lon, lat) < 4,
        forall|c: int|
            0 <= c < 4 ==> corner_dist(lon, lat, nearest_corner(lon, lat)) <= #[trigger] corner_dist(
                lon,
                lat,
                c,
            ),
        forall|c: int|
            0 <= c < nearest_corner(lon, lat) ==> corner_dist(lon, lat, nearest_corner(lon, lat))
                < #[trigger] corner_dist(lon, lat, c),
{
}

/// A basin label for each cell of the globe, row by row (latitude), each row
/// a column per longitude.
pub struct BasinRaster {
    pub rows: Vec<Vec<i32>>,
}

/// Why a point could not be classified.
#[derive(PartialEq, Eq, Structural, Clone, Copy, Debug)]
pub enum ClassifyError {
    /// The nearest corner lies outside the raster.
    OutOfRaster { row: i64, column: i64 },
}

impl BasinRaster {
    /// The cell (`row`, `column`) lies in the raster.
    pub open spec fn holds(&self, row: int, column: int) -> bool {
        0 <= row < self.rows@.len() && 0 <= column < self.rows@[row]@.len()
    }

    /// The basin label of the raster cell whose centre is nearest to the
    /// point (`lon`, `lat`), both in millidegrees; an error where that cell
    /// lies outside the raster.
    pub fn classify(&self, lon: i64, lat: i64) -> (r: Result<i32, ClassifyError>)
        ensures
            ({
                let (row, column) = raster_cell(lon as int, lat as int);
                match r {
                    Ok(label) => self.holds(row, column) && label == self.rows@[row]@[column],
                    Err(ClassifyError::OutOfRaster { row: er, column: ec }) => !self.holds(row, column)
                        && er == row && ec == column,
                }
            }),
    {
        let lon_lo = floor_cell(lon);
        let lon_hi = ceil_cell(lon);
        let lat_lo = floor_cell(lat);
        let lat_hi = ceil_cell(lat);
        let d0 = sq_dist(lon, lat, lat_lo, lon_lo);
        let d1 = sq_dist(lon, lat, lat_hi, lon_lo);
        let d2 = sq_dist(lon, lat, lat_hi, lon_hi);
        let d3 = sq_dist(lon, lat, lat_lo, lon_hi);
        let ghost (l, t) = (lon as int, lat as int);
        assert(d0 == corner_dist(l, t, 0));
        assert(d1 == corner_dist(l, t, 1));
        assert(d2 == corner_dist(l, t, 2));
        assert(d3 == corner_dist(l, t, 3));
        // A later corner replaces the best so far only when strictly nearer.
        let mut best_lat = lat_lo;
        let mut best_lon = lon_lo;
        let mut best = d0;
        if d1 < best {
            best_lat = lat_hi;
            best_lon = lon_lo;
            best = d1;
        }
        if d2 < best {
            best_lat = lat_hi;
            best_lon = lon_hi;
            best = d2;
        }
        if d3 < best {
            best_lat = lat_lo;
            best_lon = lon_hi;
            best = d3;
        }
        assert((best_lat as int, best_lon as int) == corner(l, t, nearest_corner(l, t)));
        let row: i64 = (best_lat + LAT_ORIGIN_CELLS as i128) as i64;
        let column: i64 = (best_lon + LON_ORIGIN_CELLS as i128) as i64;
        if row < 0 || column < 0 {
            return Err(ClassifyError::OutOfRaster { row, column });
        }
        if row as u64 >= self.rows.len() as u64 {
            return Err(ClassifyError::OutOfRaster { row, column });
        }
        let ru = row as usize;
        if column as u64 >= self.rows[ru].len() as u64 {
            return Err(ClassifyError::OutOfRaster { row, column });
        }
        Ok(self.rows[ru][column as usize])
    }
}

/// [`cell_below`] of a coordinate.
fn floor_cell(m: i64) -> (r: i128)
    ensures
        r == cell_below(m as int),
        -10000000000000000 < r < 10000000000000000,
{
    let a: i128 = m as i128 - 500 + LIFT;
    assert(a >= 0);
    let q: i128 = a / 1000;
    proof {
        lemma_hoist_over_denominator(m - 500, LIFT_CELLS as int, 1000);
    }
    q - LIFT_CELLS
}

/// [`cell_above`] of a coordinate.
fn ceil_cell(m: i64) -> (r: i128)
    ensures
        r == cell_above(m as int),
        -10000000000000000 < r < 10000000000000001,
{
    let f = floor_cell(m);
    if f * 1000 + 500 == m as i128 {
        f
    } else {
        f + 1
    }
}

/// The squared distance from (`lon`, `lat`) to the centre of cell lines
/// (`klat`, `klon`), each of which lies within a degree of the point.
fn sq_dist(lon: i64, lat: i64, klat: i128, klon: i128) -> (r: i128)
    requires
        -1000 < lon - centre(klon as int) < 1000,
        -1000 < lat - centre(klat as int) < 1000,
    ensures
        r == (lon - centre(klon as int)) * (lon - centre(klon as int)) + (lat - centre(klat as int)) * (
        lat - centre(klat as int)),
{
    let dx: i128 = lon as i128 - (1000 * klon + 500);
    let dy: i128 = lat as i128 - (1000 * klat + 500);
    assert(dx * dx < 1000000) by (nonlinear_arith)
        requires
            -1000 < dx < 1000,
    ;
    assert(dx * dx >= 0) by (nonlinear_arith);
    assert(dy * dy < 1000000) by (nonlinear_arith)
        requires
            -1000 < dy < 1000,
    ;
    assert(dy * dy >= 0) by (nonlinear_arith);
    dx * dx + dy * dy
}

} // verus!
