//! The navigable grid: an immutable dense matrix of per-cell traversability,
//! built once from a sparse list of placed objects and read by the
//! pathfinder.  Cell `(x, y)` is traversable unless an obstacle object was
//! registered at it.

use vstd::prelude::*;

use crate::utility_types::Num2D;

verus! {

/// Largest accepted side length of a grid, so that cell indices and search
/// costs stay far from overflow.
pub const MAX_GRID_SIDE: usize = 32768;

/// What a placed object is: part of a walkable route, or an obstacle that
/// blocks its cell.
#[derive(Clone, Copy, Debug, Hash, PartialEq, Eq, Structural)]
pub enum ObjectType {
    Path,
    Obstacle,
}

/// An object placed on the grid at a fixed cell.
#[derive(Clone, Copy, Debug, Hash, PartialEq, Eq, Structural)]
pub struct Object {
    pub id: u32,
    pub value: ObjectType,
    pub location: Num2D,
}

impl Object {
    pub fn new(id: u32, value: ObjectType, location: Num2D) -> (r: Object)
        ensures
            r.id == id,
            r.value == value,
            r.location == location,
    {
        Object { id, value, location }
    }
}

/// A flat row-major index stays inside the matrix.
pub proof fn lemma_grid_index_bounds(w: int, h: int, x: int, y: int)
    by (nonlinear_arith)
    requires
        0 <= x < w,
        0 <= y < h,
        w <= MAX_GRID_SIDE,
        h <= MAX_GRID_SIDE,
    ensures
        0 <= y * w + x < w * h,
        w * h <= 0x4000_0000,
{
}

/// Distinct in-bounds cells have distinct flat indices.
pub proof fn lemma_grid_index_inj(w: int, h: int, x1: int, y1: int, x2: int, y2: int)
    by (nonlinear_arith)
    requires
        0 <= x1 < w,
        0 <= y1 < h,
        0 <= x2 < w,
        0 <= y2 < h,
        x1 != x2 || y1 != y2,
    ensures
        y1 * w + x1 != y2 * w + x2,
{
}

/// An object list puts an obstacle on cell `p`.
pub open spec fn blocks_cell(objs: Seq<Object>, p: Num2D) -> bool {
    exists|k: int|
        0 <= k < objs.len() && (#[trigger] objs[k]).value is Obstacle && objs[k].location == p
}

/// The immutable binary navigability matrix: `cells` holds one traversability
/// bit per cell, row-major.  It is built once and never mutated afterwards;
/// changing obstacles means rebuilding the grid and every cached path.
pub struct NavigableGrid {
    pub width: usize,
    pub height: usize,
    pub cells: Vec<bool>,
}

impl NavigableGrid {
    /// The matrix has exactly one bit per cell of a grid whose sides are
    /// within the accepted limit.
    pub open spec fn wf(self) -> bool {
        &&& self.width <= MAX_GRID_SIDE
        &&& self.height <= MAX_GRID_SIDE
        &&& self.cells@.len() == self.width * self.height
    }

    /// The cell lies inside the grid extent.
    pub open spec fn in_bounds(self, p: Num2D) -> bool {
        0 <= p.x < self.width && 0 <= p.y < self.height
    }

    /// The cell lies inside the grid and is traversable.
    pub open spec fn free(self, p: Num2D) -> bool {
        self.in_bounds(p) && self.cells@[p.y as int * self.width as int + p.x as int]
    }

    /// Flat row-major index of an in-bounds cell.
    pub fn cell_index(&self, p: Num2D) -> (i: usize)
        requires
            self.wf(),
            self.in_bounds(p),
        ensures
            i == p.y as int * self.width as int + p.x as int,
            i < self.cells@.len(),
    {
        proof {
            lemma_grid_index_bounds(
                self.width as int,
                self.height as int,
                p.x as int,
                p.y as int,
            );
        }
        (p.y as usize) * self.width + (p.x as usize)
    }

    /// Uniform occupancy query: true exactly on traversable in-bounds cells,
    /// false on blocked or out-of-bounds ones.
    pub fn is_traversable(&self, p: Num2D) -> (r: bool)
        requires
            self.wf(),
        ensures
            r == self.free(p),
    {
        if 0 <= p.x && p.x < self.width as i64 && 0 <= p.y && p.y < self.height as i64 {
            let i = self.cell_index(p);
            self.cells[i]
        } else {
            false
        }
    }
}

/// Builds the navigability matrix for a `width` by `height` grid from the
/// placed objects: a cell is traversable exactly when no obstacle object
/// sits on it.  Objects of type `Path` and objects outside the extent do
/// not block anything; absent obstacle data yields an all-traversable grid.
pub fn make_navigable_matrix(width: usize, height: usize, objects: &Vec<Object>) -> (r:
    NavigableGrid)
    requires
        width <= MAX_GRID_SIDE,
        height <= MAX_GRID_SIDE,
    ensures
        r.wf(),
        r.width == width,
        r.height == height,
        forall|p: Num2D| r.in_bounds(p) ==> (#[trigger] r.free(p) <==> !blocks_cell(objects@, p)),
{
    proof {
        if width > 0 && height > 0 {
            lemma_grid_index_bounds(width as int, height as int, 0, 0);
        }
        vstd::arithmetic::mul::lemma_mul_upper_bound(
            width as int,
            MAX_GRID_SIDE as int,
            height as int,
            MAX_GRID_SIDE as int,
        );
    }
    let total: usize = width * height;
    let mut cells: Vec<bool> = Vec::new();
    let mut i: usize = 0;
    while i < total
        invariant
            i <= total,
            cells@.len() == i,
            forall|j: int| 0 <= j < i ==> cells@[j],
        decreases total - i,
    {
        cells.push(true);
        i = i + 1;
    }
    let mut grid = NavigableGrid { width, height, cells };
    proof {
        assert forall|p: Num2D| grid.in_bounds(p) implies #[trigger] grid.free(p) by {
            lemma_grid_index_bounds(width as int, height as int, p.x as int, p.y as int);
        }
    }
    let mut k: usize = 0;
    while k < objects.len()
        invariant
            k <= objects.len(),
            grid.wf(),
            grid.width == width,
            grid.height == height,
            forall|p: Num2D|
                grid.in_bounds(p) ==> (#[trigger] grid.free(p) <==> !blocks_cell(
                    objects@.subrange(0, k as int),
                    p,
                )),
        decreases objects.len() - k,
    {
        let ob = objects[k];
        let ghost pre = grid;
        if matches!(ob.value, ObjectType::Obstacle) && 0 <= ob.location.x
            && ob.location.x < width as i64 && 0 <= ob.location.y
            && ob.location.y < height as i64 {
            let i = grid.cell_index(ob.location);
            grid.cells.set(i, false);
            proof {
                assert forall|p: Num2D|
                    grid.in_bounds(p) implies (#[trigger] grid.free(p) <==> !blocks_cell(
                    objects@.subrange(0, k as int + 1),
                    p,
                )) by {
                    let sub1 = objects@.subrange(0, k as int + 1);
                    let sub0 = objects@.subrange(0, k as int);
                    assert(sub1[k as int] == ob);
                    assert(forall|j: int| 0 <= j < k ==> sub1[j] == #[trigger] sub0[j]);
                    if p == ob.location {
                        assert(blocks_cell(sub1, p));
                        assert(!grid.free(p));
                    } else {
                        lemma_grid_index_inj(
                            width as int,
                            height as int,
                            p.x as int,
                            p.y as int,
                            ob.location.x as int,
                            ob.location.y as int,
                        );
                        lemma_grid_index_bounds(
                            width as int,
                            height as int,
                            p.x as int,
                            p.y as int,
                        );
                        assert(grid.free(p) == pre.free(p));
                        if blocks_cell(sub1, p) {
                            let w = choose|j: int|
                                0 <= j < sub1.len() && (#[trigger] sub1[j]).value is Obstacle
                                    && sub1[j].location == p;
                            assert(w < k && sub0[w] == sub1[w]);
                            assert(blocks_cell(sub0, p));
                        }
                        if blocks_cell(sub0, p) {
                            let w = choose|j: int|
                                0 <= j < sub0.len() && (#[trigger] sub0[j]).value is Obstacle
                                    && sub0[j].location == p;
                            assert(sub1[w] == sub0[w]);
                            assert(blocks_cell(sub1, p));
                        }
                    }
                }
            }
        } else {
            proof {
                assert forall|p: Num2D|
                    grid.in_bounds(p) implies (#[trigger] grid.free(p) <==> !blocks_cell(
                    objects@.subrange(0, k as int + 1),
                    p,
                )) by {
                    let sub1 = objects@.subrange(0, k as int + 1);
                    let sub0 = objects@.subrange(0, k as int);
                    assert(sub1[k as int] == ob);
                    assert(forall|j: int| 0 <= j < k ==> sub1[j] == #[trigger] sub0[j]);
                    if blocks_cell(sub1, p) {
                        let w = choose|j: int|
                            0 <= j < sub1.len() && (#[trigger] sub1[j]).value is Obstacle
                                && sub1[j].location == p;
                        if w == k {
                            assert(ob.value is Obstacle ==> !grid.in_bounds(ob.location));
                            assert(false);
                        }
                        assert(blocks_cell(sub0, p));
                    }
                    if blocks_cell(sub0, p) {
                        let w = choose|j: int|
                            0 <= j < sub0.len() && (#[trigger] sub0[j]).value is Obstacle
                                && sub0[j].location == p;
                        assert(sub1[w] == sub0[w]);
                        assert(blocks_cell(sub1, p));
                    }
                }
            }
        }
        k = k + 1;
    }
    proof {
        assert(objects@.subrange(0, objects@.len() as int) =~= objects@);
    }
    grid
}

} // verus!
