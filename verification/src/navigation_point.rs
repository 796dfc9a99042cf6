//! Navigation-capable points.
//!
//! A navigation point is anything that designates a grid cell; distances
//! between points and pathfinding across a navigable grid are then stated
//! over the designated cells, so every implementation inherits the same
//! exact contracts.

use vstd::prelude::*;

use crate::calc_utils::isqrt;
use crate::calc_utils::lemma_sum_squares_bounded;
use crate::calc_utils::sqrt_floor;
use crate::grid::NavigableGrid;
use crate::pathfinding::astar;
use crate::pathfinding::is_walk;
use crate::pathfinding::manhattan;
use crate::pathfinding::reachable;
use crate::utility_types::NavError;
use crate::utility_types::Num2D;

verus! {

pub trait NavigationPoint: Sized {
    /// The grid cell this point designates.
    spec fn cell(&self) -> Num2D;

    fn x(&self) -> (r: i64)
        ensures
            r == self.cell().x,
    ;

    fn y(&self) -> (r: i64)
        ensures
            r == self.cell().y,
    ;

    /// The Euclidean distance between the designated cells, rounded to the
    /// nearest integer (half units round up).
    fn euclidean_distance(&self, other: &Self) -> (r: Result<i64, NavError>)
        requires
            -100_000_000 <= self.cell().x <= 100_000_000,
            -100_000_000 <= self.cell().y <= 100_000_000,
            -100_000_000 <= other.cell().x <= 100_000_000,
            -100_000_000 <= other.cell().y <= 100_000_000,
        ensures
            r matches Ok(v) && v == (sqrt_floor(
                (4 * ((self.cell().x - other.cell().x) * (self.cell().x - other.cell().x) + (
                self.cell().y - other.cell().y) * (self.cell().y - other.cell().y))) as nat,
            ) as int + 1) / 2,
    ;

    /// The Manhattan distance between the designated cells.
    fn manhattan_distance(&self, other: &Self) -> (r: Result<i64, NavError>)
        requires
            -1_000_000_000 <= self.cell().x <= 1_000_000_000,
            -1_000_000_000 <= self.cell().y <= 1_000_000_000,
            -1_000_000_000 <= other.cell().x <= 1_000_000_000,
            -1_000_000_000 <= other.cell().y <= 1_000_000_000,
        ensures
            r matches Ok(v) && v == manhattan(self.cell(), other.cell()),
    ;

    /// A shortest path between the designated cells over the grid, with the
    /// same meaning as the grid search itself: the waypoints run from the
    /// origin up to, but not including, the destination, and no walk
    /// between the two cells is shorter.
    fn path_to_destination(origin: &Self, destination: &Self, grid: &NavigableGrid) -> (r: Result<
        Vec<Self>,
        NavError,
    >)
        requires
            grid.wf(),
        ensures
            !(grid.in_bounds(origin.cell()) && grid.in_bounds(destination.cell())) ==> (r matches
            Err(e) && e == NavError::OutOfBounds),
            grid.in_bounds(origin.cell()) && grid.in_bounds(destination.cell()) ==> (match r {
                Ok(p) => {
                    &&& exists|c: Seq<Num2D>|
                        {
                            &&& c.len() == p@.len()
                            &&& (forall|k: int| 0 <= k < c.len() ==> #[trigger] c[k] == p@[k].cell())
                            &&& #[trigger] is_walk(
                                *grid,
                                c.push(destination.cell()),
                                origin.cell(),
                                destination.cell(),
                            )
                        }
                    &&& forall|q: Seq<Num2D>|
                        #[trigger] is_walk(*grid, q, origin.cell(), destination.cell())
                            ==> q.len() >= p@.len() + 1
                    &&& (origin.cell() == destination.cell() ==> p@.len() == 0)
                },
                Err(e) => e == NavError::NoPathFound && !reachable(
                    *grid,
                    origin.cell(),
                    destination.cell(),
                ),
            }),
            r is Ok <==> grid.in_bounds(origin.cell()) && grid.in_bounds(destination.cell())
                && reachable(*grid, origin.cell(), destination.cell()),
    ;
}

impl NavigationPoint for Num2D {
    open spec fn cell(&self) -> Num2D {
        *self
    }

    fn x(&self) -> (r: i64) {
        self.x
    }

    fn y(&self) -> (r: i64) {
        self.y
    }

    fn euclidean_distance(&self, other: &Self) -> (r: Result<i64, NavError>) {
        let dx: i64 = self.x - other.x;
        let dy: i64 = self.y - other.y;
        proof {
            lemma_sum_squares_bounded(dx as int, dy as int);
            assert(4 * (dx * dx + dy * dy) <= 2_000_000_000_000_000_000) by (nonlinear_arith)
                requires
                    -200_000_000 <= dx <= 200_000_000,
                    -200_000_000 <= dy <= 200_000_000,
            ;
        }
        let s: i64 = isqrt(4 * (dx * dx + dy * dy));
        Ok((s + 1) / 2)
    }

    fn manhattan_distance(&self, other: &Self) -> (r: Result<i64, NavError>) {
        let dx: i64 = if self.x >= other.x {
            self.x - other.x
        } else {
            other.x - self.x
        };
        let dy: i64 = if self.y >= other.y {
            self.y - other.y
        } else {
            other.y - self.y
        };
        Ok(dx + dy)
    }

    fn path_to_destination(origin: &Self, destination: &Self, grid: &NavigableGrid) -> (r: Result<
        Vec<Num2D>,
        NavError,
    >) {
        let r = astar(*origin, *destination, grid);
        proof {
            match &r {
                Ok(p) => {
                    if grid.in_bounds(*origin) && grid.in_bounds(*destination) {
                        assert(is_walk(*grid, p@.push(*destination), *origin, *destination));
                        assert(forall|k: int| 0 <= k < p@.len() ==> #[trigger] p@[k] == p@[k]);
                    }
                },
                Err(_) => {},
            }
        }
        r
    }
}

} // verus!
