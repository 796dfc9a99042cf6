//! The two coordinate systems and the conversions between them.
//!
//! Pathfinding works in grid space: `Num2D`, a pair of integer cell indices.
//! Agents move in simulation space: `Sim2D`, a pair of fixed-point
//! coordinates with `CELL_SCALE` sub-units per grid cell.  A grid cell's
//! simulation coordinate is its lower corner, and converting a simulation
//! point to a cell floors each coordinate, so sub-cell offsets are discarded
//! when planning.

use vstd::prelude::*;

verus! {

/// Sub-units of the simulation plane per grid cell.
pub const CELL_SCALE: i64 = 1000;

/// Largest cell index that `to_simulation` can represent.
pub const MAX_CELL_COORD: i64 = 1_000_000;

/// Why a single navigation request failed.
#[derive(Clone, Copy, Debug, PartialEq, Eq, Structural)]
pub enum NavError {
    /// An endpoint of a path request lies outside the grid extent.
    OutOfBounds,
    /// The search exhausted every reachable cell without meeting the
    /// destination.
    NoPathFound,
    /// A position cannot be represented in the target coordinate system.
    CoordinateConversionFailure,
}

/// A grid-space position: integer cell indices.
#[derive(Clone, Copy, Debug, Hash, PartialEq, Eq, Structural)]
pub struct Num2D {
    pub x: i64,
    pub y: i64,
}

/// A simulation-space position in fixed-point coordinates:
/// `CELL_SCALE` sub-units per grid cell.
#[derive(Clone, Copy, Debug, Hash, PartialEq, Eq, Structural)]
pub struct Sim2D {
    pub x: i64,
    pub y: i64,
}

/// A simulation point that lies exactly on a cell's lower corner.
pub open spec fn aligned(p: Sim2D) -> bool {
    p.x as int % (CELL_SCALE as int) == 0 && p.y as int % (CELL_SCALE as int) == 0
}

/// The cell a non-negative simulation point falls in.
pub open spec fn grid_of_sim(p: Sim2D) -> Num2D
    recommends p.x >= 0, p.y >= 0,
{
    Num2D { x: (p.x as int / CELL_SCALE as int) as i64, y: (p.y as int / CELL_SCALE as int) as i64 }
}

/// The lower corner of a cell, in simulation coordinates.
pub open spec fn sim_of_grid(p: Num2D) -> Sim2D
    recommends 0 <= p.x <= MAX_CELL_COORD, 0 <= p.y <= MAX_CELL_COORD,
{
    Sim2D { x: (p.x as int * CELL_SCALE as int) as i64, y: (p.y as int * CELL_SCALE as int) as i64 }
}

/// Floors a simulation point to the cell that contains it.  Simulation
/// points with a negative coordinate have no cell, so they are rejected.
pub fn to_grid(p: Sim2D) -> (r: Result<Num2D, NavError>)
    ensures
        p.x >= 0 && p.y >= 0 ==> r == Ok::<Num2D, NavError>(grid_of_sim(p)),
        p.x < 0 || p.y < 0 ==> r == Err::<Num2D, NavError>(NavError::CoordinateConversionFailure),
{
    if p.x < 0 || p.y < 0 {
        Err(NavError::CoordinateConversionFailure)
    } else {
        Ok(Num2D { x: p.x / CELL_SCALE, y: p.y / CELL_SCALE })
    }
}

/// Promotes a cell to the simulation point at its lower corner.  Cells
/// outside `[0, MAX_CELL_COORD]` on either axis have no representable
/// simulation coordinate and are rejected.
pub fn to_simulation(p: Num2D) -> (r: Result<Sim2D, NavError>)
    ensures
        0 <= p.x <= MAX_CELL_COORD && 0 <= p.y <= MAX_CELL_COORD
            ==> r == Ok::<Sim2D, NavError>(sim_of_grid(p)),
        !(0 <= p.x <= MAX_CELL_COORD && 0 <= p.y <= MAX_CELL_COORD)
            ==> r == Err::<Sim2D, NavError>(NavError::CoordinateConversionFailure),
{
    if 0 <= p.x && p.x <= MAX_CELL_COORD && 0 <= p.y && p.y <= MAX_CELL_COORD {
        Ok(Sim2D { x: p.x * CELL_SCALE, y: p.y * CELL_SCALE })
    } else {
        Err(NavError::CoordinateConversionFailure)
    }
}

/// Converting an aligned simulation point to its cell and back returns the
/// same point: the conversion pair is lossless exactly on cell corners.
pub proof fn lemma_round_trip_aligned(p: Sim2D)
    requires
        aligned(p),
        0 <= p.x <= MAX_CELL_COORD * CELL_SCALE,
        0 <= p.y <= MAX_CELL_COORD * CELL_SCALE,
    ensures
        sim_of_grid(grid_of_sim(p)) == p,
{
    let s = CELL_SCALE as int;
    vstd::arithmetic::div_mod::lemma_fundamental_div_mod(p.x as int, s);
    vstd::arithmetic::div_mod::lemma_fundamental_div_mod(p.y as int, s);
    vstd::arithmetic::div_mod::lemma_div_is_ordered(p.x as int, MAX_CELL_COORD as int * s, s);
    vstd::arithmetic::div_mod::lemma_div_is_ordered(p.y as int, MAX_CELL_COORD as int * s, s);
    vstd::arithmetic::div_mod::lemma_div_multiples_vanish(MAX_CELL_COORD as int, s);
}

} // verus!
