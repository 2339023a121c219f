//! The grid index: a deterministic map from fixed-point coordinates to an
//! integer cell key, and the cell's centroid for reporting. Coordinates are
//! micro-degrees; a centroid is carried at twice that scale so it is exact
//! for every cell size.

use crate::numeric::div_floor_i64;
use vstd::prelude::*;

verus! {

/// A grid cell: the pair of flooring quotients of latitude and longitude by
/// the cell size.
#[derive(PartialEq, Eq, Structural, Clone, Copy, Hash, Debug)]
pub struct RegionKey {
    pub lat_idx: i64,
    pub lon_idx: i64,
}

/// The cell index of a coordinate: the flooring quotient by the cell size.
pub open spec fn spec_cell_index(x: int, grid_size: int) -> int {
    x / grid_size
}

/// The centroid coordinate of a cell, in half-micro-degrees: twice the
/// midpoint `(idx + 1/2) * grid_size`.
pub open spec fn spec_centroid2(idx: int, grid_size: int) -> int {
    2 * idx * grid_size + grid_size
}

/// Whether an index times the cell size stays near the coordinate range, as
/// every index produced by `from_lat_lon` does. Keeps centroid arithmetic in
/// range.
pub open spec fn idx_bounded(idx: int, grid_size: int) -> bool {
    -0x8000000000000000 - grid_size <= idx * grid_size <= 0x8000000000000000
}

impl RegionKey {
    /// The cell containing a point, from micro-degree coordinates.
    pub fn from_lat_lon(lat: i64, lon: i64, grid_size: i64) -> (key: RegionKey)
        requires
            grid_size >= 1,
        ensures
            key.lat_idx == spec_cell_index(lat as int, grid_size as int),
            key.lon_idx == spec_cell_index(lon as int, grid_size as int),
            idx_bounded(key.lat_idx as int, grid_size as int),
            idx_bounded(key.lon_idx as int, grid_size as int),
    {
        let key = RegionKey {
            lat_idx: div_floor_i64(lat, grid_size),
            lon_idx: div_floor_i64(lon, grid_size),
        };
        proof {
            lemma_index_bounded(lat as int, grid_size as int);
            lemma_index_bounded(lon as int, grid_size as int);
        }
        key
    }

    /// The cell's centroid, in half-micro-degrees.
    pub fn centroid2(self, grid_size: i64) -> (c: (i128, i128))
        requires
            grid_size >= 1,
            idx_bounded(self.lat_idx as int, grid_size as int),
            idx_bounded(self.lon_idx as int, grid_size as int),
        ensures
            c.0 == spec_centroid2(self.lat_idx as int, grid_size as int),
            c.1 == spec_centroid2(self.lon_idx as int, grid_size as int),
            -27670116110564327424 <= c.0 <= 27670116110564327424,
            -27670116110564327424 <= c.1 <= 27670116110564327424,
    {
        proof {
            lemma_centroid2_in_range(self.lat_idx as int, grid_size as int);
            lemma_centroid2_in_range(self.lon_idx as int, grid_size as int);
        }
        let clat: i128 = 2 * (self.lat_idx as i128) * (grid_size as i128) + (grid_size as i128);
        let clon: i128 = 2 * (self.lon_idx as i128) * (grid_size as i128) + (grid_size as i128);
        (clat, clon)
    }
}

proof fn lemma_index_bounded(x: int, gs: int)
    requires
        gs >= 1,
        -0x8000000000000000 <= x < 0x8000000000000000,
    ensures
        idx_bounded(x / gs, gs),
{
    let i = x / gs;
    vstd::arithmetic::div_mod::lemma_fundamental_div_mod(x, gs);
    vstd::arithmetic::div_mod::lemma_mod_division_less_than_divisor(x, gs);
    assert(i * gs == x - x % gs) by (nonlinear_arith)
        requires
            x == gs * i + x % gs,
    ;
}

proof fn lemma_centroid2_in_range(idx: int, gs: int)
    requires
        gs >= 1,
        gs < 0x8000000000000000,
        idx_bounded(idx, gs),
    ensures
        2 * idx * gs + gs == 2 * (idx * gs) + gs,
        -27670116110564327424 <= 2 * idx * gs + gs <= 27670116110564327424,
{
    assert(2 * idx * gs == 2 * (idx * gs)) by (nonlinear_arith);
}

/// The gridding law: for any point and positive cell size, the cell index is
/// a deterministic total function, the cell's centroid lies within one cell
/// size of the point, and the centroid falls inside the cell's own bounds.
/// Distances compare at the half-micro-degree scale, where the point is `2x`
/// and the cell spans `[2 i gs, 2 (i + 1) gs)`.
pub proof fn lemma_cell_centroid(x: int, gs: int)
    requires
        gs >= 1,
    ensures
        ({
            let i = spec_cell_index(x, gs);
            let c2 = spec_centroid2(i, gs);
            &&& -gs < c2 - 2 * x <= gs
            &&& 2 * i * gs <= c2 < 2 * (i + 1) * gs
        }),
{
    let i = x / gs;
    vstd::arithmetic::div_mod::lemma_fundamental_div_mod(x, gs);
    vstd::arithmetic::div_mod::lemma_mod_division_less_than_divisor(x, gs);
    let r = x % gs;
    assert(2 * i * gs + gs - 2 * x == gs - 2 * r && 2 * i * gs <= 2 * i * gs + gs < 2 * (i + 1)
        * gs) by (nonlinear_arith)
        requires
            x == gs * i + r,
            0 <= r < gs,
            gs >= 1,
    ;
}

} // verus!
