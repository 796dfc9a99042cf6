//! Shortest-path search over the navigable grid.
//!
//! The search is best-first over the four-directional neighbourhood with the
//! Manhattan distance to the destination as the heuristic; moves have unit
//! cost, so the heuristic is admissible and consistent and the returned path
//! is shortest in step count.  A path is judged against `is_walk`: the full
//! walk starts at the origin, ends at the destination, moves one cell per
//! step, stays inside the grid, and touches no blocked cell other than
//! possibly the origin itself (every grid query, the destination included,
//! uses the same uniform occupancy check).

use vstd::prelude::*;

use vstd::math::abs;

use crate::grid::lemma_grid_index_bounds;
use crate::grid::lemma_grid_index_inj;
use crate::grid::NavigableGrid;
use crate::utility_types::NavError;
use crate::utility_types::Num2D;

verus! {

/// The two cells differ by exactly one unit in exactly one axis.
pub open spec fn adjacent(a: Num2D, b: Num2D) -> bool {
    ||| (a.x == b.x && (a.y + 1 == b.y || b.y + 1 == a.y))
    ||| (a.y == b.y && (a.x + 1 == b.x || b.x + 1 == a.x))
}

/// Manhattan distance between two cells: the number of unit moves a
/// four-connected walk needs at the very least.
pub open spec fn manhattan(a: Num2D, b: Num2D) -> int {
    abs(a.x - b.x) + abs(a.y - b.y) as int
}

/// `q` is a four-connected walk from `o` to `d` over the grid: it stays in
/// bounds, each step moves to an adjacent cell, and every cell after the
/// starting one is traversable.  The starting cell is exempt from the
/// occupancy check, so a request may begin on a blocked cell.
pub open spec fn is_walk(g: NavigableGrid, q: Seq<Num2D>, o: Num2D, d: Num2D) -> bool {
    &&& q.len() >= 1
    &&& q[0] == o
    &&& q[q.len() - 1] == d
    &&& forall|i: int| 0 <= i < q.len() - 1 ==> adjacent(#[trigger] q[i], q[i + 1])
    &&& forall|i: int| 0 <= i < q.len() ==> g.in_bounds(#[trigger] q[i])
    &&& forall|i: int| 1 <= i < q.len() ==> g.free(#[trigger] q[i])
}

/// Some four-connected walk leads from `o` to `d`.
pub open spec fn reachable(g: NavigableGrid, o: Num2D, d: Num2D) -> bool {
    exists|q: Seq<Num2D>| is_walk(g, q, o, d)
}

/// Appending a traversable adjacent cell to a walk gives a walk to that cell.
pub proof fn lemma_walk_extend(g: NavigableGrid, q: Seq<Num2D>, o: Num2D, p: Num2D, v: Num2D)
    requires
        is_walk(g, q, o, p),
        adjacent(p, v),
        g.free(v),
    ensures
        is_walk(g, q.push(v), o, v),
        q.push(v).len() == q.len() + 1,
{
    let q2 = q.push(v);
    assert(q2[q2.len() - 1] == v);
    assert(q2[q.len() - 1] == p);
    assert(forall|i: int| 0 <= i < q.len() ==> q2[i] == #[trigger] q[i]);
}

/// Prepending an in-bounds cell adjacent to a walk's traversable start gives
/// a walk from the new cell.
pub proof fn lemma_walk_prepend(g: NavigableGrid, q: Seq<Num2D>, u: Num2D, c: Num2D, d: Num2D)
    requires
        is_walk(g, q, c, d),
        adjacent(u, c),
        g.in_bounds(u),
        g.free(c),
    ensures
        is_walk(g, seq![u] + q, u, d),
        (seq![u] + q).len() == q.len() + 1,
{
    let q2 = seq![u] + q;
    assert(q2[0] == u);
    assert(forall|i: int| 0 <= i < q.len() ==> q2[i + 1] == #[trigger] q[i]);
    assert(q2[q2.len() - 1] == q[q.len() - 1]);
    assert forall|i: int| 0 <= i < q2.len() - 1 implies adjacent(#[trigger] q2[i], q2[i + 1]) by {
        if i == 0 {
            assert(q2[1] == q[0]);
        } else {
            assert(q2[i] == q[i - 1] && q2[i + 1] == q[i]);
        }
    }
    assert forall|i: int| 1 <= i < q2.len() implies g.free(#[trigger] q2[i]) by {
        assert(q2[i] == q[i - 1]);
        if i > 1 {
            assert(g.free(q[i - 1]));
        }
    }
    assert forall|i: int| 0 <= i < q2.len() implies g.in_bounds(#[trigger] q2[i]) by {
        if i > 0 {
            assert(q2[i] == q[i - 1]);
        }
    }
}

/// A proper prefix of a walk is a walk to the prefix's last cell.
pub proof fn lemma_walk_prefix(g: NavigableGrid, q: Seq<Num2D>, o: Num2D, d: Num2D, j: int)
    requires
        is_walk(g, q, o, d),
        1 <= j <= q.len(),
    ensures
        is_walk(g, q.subrange(0, j), o, q[j - 1]),
{
    let s = q.subrange(0, j);
    assert(forall|i: int| 0 <= i < j ==> s[i] == #[trigger] q[i]);
}

/// Along any chain of adjacent cells, the Manhattan distance to a fixed cell
/// changes by at most one per step: the distance at the head is at most the
/// number of steps plus the distance at the tail.
pub proof fn lemma_adj_chain_manhattan(q: Seq<Num2D>, z: Num2D)
    requires
        q.len() >= 1,
        forall|i: int| 0 <= i < q.len() - 1 ==> adjacent(#[trigger] q[i], q[i + 1]),
    ensures
        manhattan(q[0], z) <= q.len() - 1 + manhattan(q[q.len() - 1], z),
    decreases q.len(),
{
    if q.len() > 1 {
        let s = q.subrange(1, q.len() as int);
        assert(forall|i: int| 0 <= i < s.len() ==> s[i] == #[trigger] q[i + 1]);
        assert forall|i: int| 0 <= i < s.len() - 1 implies adjacent(#[trigger] s[i], s[i + 1]) by {
            assert(s[i] == q[i + 1] && s[i + 1] == q[i + 2]);
        }
        lemma_adj_chain_manhattan(s, z);
        assert(adjacent(q[0], q[1]));
        assert(manhattan(q[0], z) <= 1 + manhattan(q[1], z));
        assert(s[0] == q[1] && s[s.len() - 1] == q[q.len() - 1]);
    }
}

/// Any walk needs at least the Manhattan distance in moves, so at least
/// `manhattan + 1` cells.
pub proof fn lemma_walk_manhattan_lower(g: NavigableGrid, q: Seq<Num2D>, o: Num2D, d: Num2D)
    requires
        is_walk(g, q, o, d),
    ensures
        q.len() >= manhattan(o, d) + 1,
{
    lemma_adj_chain_manhattan(q, d);
}

/// On a grid whose every in-bounds cell is traversable, a shortest walk
/// between two in-bounds cells exists and its length is exactly the
/// Manhattan distance plus one: four-connected unit-cost movement can do no
/// better than one axis-aligned unit per step, and with nothing blocked it
/// needs no detour either.
pub proof fn lemma_open_grid_shortest(g: NavigableGrid, o: Num2D, d: Num2D)
    requires
        g.wf(),
        g.in_bounds(o),
        g.in_bounds(d),
        forall|p: Num2D| g.in_bounds(p) ==> #[trigger] g.free(p),
    ensures
        exists|q: Seq<Num2D>| is_walk(g, q, o, d) && q.len() == manhattan(o, d) + 1,
        forall|q: Seq<Num2D>| is_walk(g, q, o, d) ==> q.len() >= manhattan(o, d) + 1,
    decreases manhattan(o, d),
{
    assert forall|q: Seq<Num2D>| is_walk(g, q, o, d) implies q.len() >= manhattan(o, d) + 1 by {
        lemma_walk_manhattan_lower(g, q, o, d);
    }
    if o == d {
        let q = seq![o];
        assert(q[0] == o && q[q.len() - 1] == d);
        assert(is_walk(g, q, o, d) && q.len() == manhattan(o, d) + 1);
    } else {
        let n = if o.x < d.x {
            Num2D { x: (o.x + 1) as i64, y: o.y }
        } else if o.x > d.x {
            Num2D { x: (o.x - 1) as i64, y: o.y }
        } else if o.y < d.y {
            Num2D { x: o.x, y: (o.y + 1) as i64 }
        } else {
            Num2D { x: o.x, y: (o.y - 1) as i64 }
        };
        assert(g.in_bounds(n));
        assert(adjacent(o, n));
        assert(manhattan(n, d) == manhattan(o, d) - 1);
        lemma_open_grid_shortest(g, n, d);
        let q = choose|q: Seq<Num2D>| is_walk(g, q, n, d) && q.len() == manhattan(n, d) + 1;
        lemma_walk_prepend(g, q, o, n, d);
        assert(is_walk(g, seq![o] + q, o, d) && (seq![o] + q).len() == manhattan(o, d) + 1);
    }
}

/// On a grid with no obstacles, a returned path is exactly as long as the
/// Manhattan distance between its endpoints: any sequence that is a
/// shortest walk once the destination is appended — which is what the
/// search promises of its result — can do no better than one axis-aligned
/// unit per move, and needs no detour either.
pub proof fn lemma_open_grid_route_length(g: NavigableGrid, o: Num2D, d: Num2D, p: Seq<Num2D>)
    requires
        g.wf(),
        g.in_bounds(o),
        g.in_bounds(d),
        forall|c: Num2D| g.in_bounds(c) ==> #[trigger] g.free(c),
        is_walk(g, p.push(d), o, d),
        forall|q: Seq<Num2D>| #[trigger] is_walk(g, q, o, d) ==> q.len() >= p.len() + 1,
    ensures
        p.len() == manhattan(o, d),
{
    lemma_open_grid_shortest(g, o, d);
    let q0 = choose|q: Seq<Num2D>| is_walk(g, q, o, d) && q.len() == manhattan(o, d) + 1;
    assert(q0.len() >= p.len() + 1);
    assert(p.push(d).len() >= manhattan(o, d) + 1);
}

/// When the starting cell is itself traversable, no cell of the walk lies
/// on a blocked cell: the walk definition already demands it of every later
/// cell, and the start is the one exemption.
pub proof fn lemma_walk_all_traversable(g: NavigableGrid, q: Seq<Num2D>, o: Num2D, d: Num2D)
    requires
        is_walk(g, q, o, d),
        g.free(o),
    ensures
        forall|i: int| 0 <= i < q.len() ==> g.free(#[trigger] q[i]),
{
    assert(q[0] == o);
}

/// Every in-bounds cell reaches itself by the trivial walk, so a search
/// whose origin equals its destination is owed an empty path rather than an
/// error.
pub proof fn lemma_self_reachable(g: NavigableGrid, o: Num2D)
    requires
        g.in_bounds(o),
    ensures
        reachable(g, o, o),
{
    assert(is_walk(g, seq![o], o, o));
}

/// One queued examination candidate during a search: a cell together with
/// the estimated total cost (cost from the origin plus heuristic) it was
/// queued with.
#[derive(Clone, Copy, Debug, PartialEq, Eq, Structural)]
pub struct NodeDistance {
    pub node: Num2D,
    pub dist: usize,
}

/// Flat row-major index of a cell in the per-cell search tables.
spec fn cidx(w: int, p: Num2D) -> int {
    p.y as int * w + p.x as int
}

/// The cell is finalized: popped once with a settled cost.
spec fn closed_at(cs: Seq<bool>, w: int, p: Num2D) -> bool {
    cs[cidx(w, p)]
}

/// The cell has a best-known cost from the origin.
spec fn labeled(ds: Seq<Option<usize>>, w: int, p: Num2D) -> bool {
    ds[cidx(w, p)] is Some
}

/// The cell's best-known cost from the origin.
spec fn gv(ds: Seq<Option<usize>>, w: int, p: Num2D) -> int {
    ds[cidx(w, p)]->Some_0 as int
}

/// The cell's recorded predecessor on a best-known route.
spec fn pred_at(ps: Seq<Option<Num2D>>, w: int, p: Num2D) -> Option<Num2D> {
    ps[cidx(w, p)]
}

/// How many cells are finalized.
spec fn ntrue(s: Seq<bool>) -> nat
    decreases s.len(),
{
    if s.len() == 0 {
        0
    } else {
        ntrue(s.drop_last()) + if s[s.len() - 1] {
            1nat
        } else {
            0nat
        }
    }
}

proof fn lemma_ntrue_le_len(s: Seq<bool>)
    ensures
        ntrue(s) <= s.len(),
    decreases s.len(),
{
    if s.len() > 0 {
        lemma_ntrue_le_len(s.drop_last());
    }
}

proof fn lemma_ntrue_update(s: Seq<bool>, i: int)
    requires
        0 <= i < s.len(),
        !s[i],
    ensures
        ntrue(s.update(i, true)) == ntrue(s) + 1,
    decreases s.len(),
{
    let t = s.update(i, true);
    if i == s.len() - 1 {
        assert(t.drop_last() =~= s.drop_last());
    } else {
        assert(t.drop_last() =~= s.drop_last().update(i, true));
        lemma_ntrue_update(s.drop_last(), i);
    }
}

/// Everything the search maintains across iterations, phrased over the ghost
/// views of its tables: `ds` the per-cell best-known costs, `ps` the
/// recorded predecessors, `cs` the finalized cells, `os` the queued
/// candidates.  While a just-finalized cell's neighbours are still being
/// examined, that cell is named in `ex` and exempted from the
/// neighbours-examined clause; a settled state uses `search_inv`.
#[verifier::opaque]
spec fn search_inv_at(
    g: NavigableGrid,
    o: Num2D,
    d: Num2D,
    ds: Seq<Option<usize>>,
    ps: Seq<Option<Num2D>>,
    cs: Seq<bool>,
    os: Seq<NodeDistance>,
    ex: Option<Num2D>,
) -> bool {
    let w = g.width as int;
    &&& g.wf()
    &&& g.in_bounds(o)
    &&& g.in_bounds(d)
    &&& ds.len() == g.width * g.height
    &&& ps.len() == g.width * g.height
    &&& cs.len() == g.width * g.height
    &&& labeled(ds, w, o)
    &&& gv(ds, w, o) == 0
    &&& pred_at(ps, w, o) is None
    &&& !closed_at(cs, w, d)
    // every recorded cost is bounded by the number of finalized cells
    &&& forall|p: Num2D|
        g.in_bounds(p) && #[trigger] labeled(ds, w, p) ==> 0 <= gv(ds, w, p) <= ntrue(cs)
    // every recorded cost is realized by an actual walk of that length
    &&& forall|p: Num2D|
        g.in_bounds(p) && #[trigger] labeled(ds, w, p) ==> exists|q: Seq<Num2D>|
            is_walk(g, q, o, p) && q.len() == gv(ds, w, p) + 1
    // finalized cells are labeled
    &&& forall|p: Num2D| g.in_bounds(p) && #[trigger] closed_at(cs, w, p) ==> labeled(ds, w, p)
    // a finalized cell's cost is a lower bound on every walk to it
    &&& forall|p: Num2D, q: Seq<Num2D>|
        #![trigger closed_at(cs, w, p), is_walk(g, q, o, p)]
        g.in_bounds(p) && closed_at(cs, w, p) && is_walk(g, q, o, p) ==> q.len() >= gv(
            ds,
            w,
            p,
        ) + 1
    // every traversable neighbour of a finalized, fully examined cell is
    // labeled, one step away at most
    &&& forall|p: Num2D, n: Num2D|
        #![trigger closed_at(cs, w, p), adjacent(p, n)]
        g.in_bounds(p) && closed_at(cs, w, p) && Some(p) != ex && adjacent(p, n) && g.free(n)
            ==> labeled(ds, w, n) && gv(ds, w, n) <= gv(ds, w, p) + 1
    // every labeled unfinalized cell has a queue entry at its current estimate
    &&& forall|p: Num2D|
        g.in_bounds(p) && #[trigger] labeled(ds, w, p) && !closed_at(cs, w, p) ==> exists|k: int|
            0 <= k < os.len() && (#[trigger] os[k]).node == p && os[k].dist == gv(ds, w, p)
                + manhattan(p, d)
    // every queue entry names a labeled in-bounds cell, at no less than its current estimate
    &&& forall|k: int|
        0 <= k < os.len() ==> g.in_bounds((#[trigger] os[k]).node) && labeled(ds, w, os[k].node)
            && gv(ds, w, os[k].node) + manhattan(os[k].node, d) <= os[k].dist
    // every labeled cell but the origin is traversable and has a finalized
    // predecessor recorded, adjacent and exactly one step cheaper
    &&& forall|p: Num2D|
        g.in_bounds(p) && #[trigger] labeled(ds, w, p) && p != o ==> (pred_at(ps, w, p) matches
        Some(u) && g.in_bounds(u) && adjacent(u, p) && labeled(ds, w, u) && closed_at(cs, w, u)
            && gv(ds, w, u) + 1 == gv(ds, w, p) && g.free(p))
}

/// The settled search invariant: no finalized cell has unexamined
/// neighbours.
spec fn search_inv(
    g: NavigableGrid,
    o: Num2D,
    d: Num2D,
    ds: Seq<Option<usize>>,
    ps: Seq<Option<Num2D>>,
    cs: Seq<bool>,
    os: Seq<NodeDistance>,
) -> bool {
    search_inv_at(g, o, d, ds, ps, cs, os, None)
}

/// Index of the first cell of a chain that is not yet finalized, given that
/// its last cell is not.
proof fn first_not_closed(cs: Seq<bool>, w: int, q: Seq<Num2D>) -> (j: int)
    requires
        q.len() >= 1,
        !closed_at(cs, w, q[q.len() - 1]),
    ensures
        0 <= j < q.len(),
        !closed_at(cs, w, q[j]),
        forall|i: int| 0 <= i < j ==> closed_at(cs, w, #[trigger] q[i]),
    decreases q.len(),
{
    if !closed_at(cs, w, q[0]) {
        0
    } else {
        let s = q.subrange(1, q.len() as int);
        assert(s[s.len() - 1] == q[q.len() - 1]);
        let j0 = first_not_closed(cs, w, s);
        assert(s[j0] == q[j0 + 1]);
        assert forall|i: int| 0 <= i < j0 + 1 implies closed_at(cs, w, #[trigger] q[i]) by {
            if i > 0 {
                assert(s[i - 1] == q[i]);
            }
        }
        j0 + 1
    }
}

/// The heart of the search's optimality: when the queue entry with the least
/// estimate names an unfinalized cell, that cell's recorded cost is already a
/// lower bound on every walk to it.  The estimate is the cost plus the
/// Manhattan heuristic, which never overestimates and changes by at most one
/// per step, so no cheaper route through the unfinalized frontier can exist.
#[verifier::rlimit(100)]
#[verifier::spinoff_prover]
proof fn lemma_pop_optimal(
    g: NavigableGrid,
    o: Num2D,
    d: Num2D,
    ds: Seq<Option<usize>>,
    ps: Seq<Option<Num2D>>,
    cs: Seq<bool>,
    os: Seq<NodeDistance>,
    m: int,
)
    requires
        search_inv(g, o, d, ds, ps, cs, os),
        0 <= m < os.len(),
        !closed_at(cs, g.width as int, os[m].node),
        forall|k: int| 0 <= k < os.len() ==> os[m].dist <= (#[trigger] os[k]).dist,
    ensures
        forall|q: Seq<Num2D>|
            #[trigger] is_walk(g, q, o, os[m].node) ==> q.len() >= gv(
                ds,
                g.width as int,
                os[m].node,
            ) + 1,
{
    reveal(search_inv_at);
    let w = g.width as int;
    let u = os[m].node;
    let fu = os[m].dist as int;
    assert(labeled(ds, w, u));
    assert(gv(ds, w, u) + manhattan(u, d) <= fu);
    assert(exists|k: int|
        0 <= k < os.len() && (#[trigger] os[k]).node == u && os[k].dist == gv(ds, w, u)
            + manhattan(u, d));
    let kf = choose|k: int|
        0 <= k < os.len() && (#[trigger] os[k]).node == u && os[k].dist == gv(ds, w, u)
            + manhattan(u, d);
    assert(fu <= os[kf].dist);
    assert(fu == gv(ds, w, u) + manhattan(u, d));
    assert forall|q: Seq<Num2D>| #[trigger] is_walk(g, q, o, u) implies q.len() >= gv(ds, w, u)
        + 1 by {
        lemma_pop_walk_bound(g, o, d, ds, ps, cs, os, m, q);
    }
}

/// One walk's length bound for `lemma_pop_optimal`: any walk to the cell
/// named by the least queued estimate crosses from the finalized region into
/// the frontier, and the frontier crossing already costs as much as the
/// popped estimate promises.
#[verifier::rlimit(100)]
#[verifier::spinoff_prover]
proof fn lemma_pop_walk_bound(
    g: NavigableGrid,
    o: Num2D,
    d: Num2D,
    ds: Seq<Option<usize>>,
    ps: Seq<Option<Num2D>>,
    cs: Seq<bool>,
    os: Seq<NodeDistance>,
    m: int,
    q: Seq<Num2D>,
)
    requires
        labeled(ds, g.width as int, o),
        gv(ds, g.width as int, o) == 0,
        forall|p: Num2D, q2: Seq<Num2D>|
            #![trigger closed_at(cs, g.width as int, p), is_walk(g, q2, o, p)]
            g.in_bounds(p) && closed_at(cs, g.width as int, p) && is_walk(g, q2, o, p)
                ==> q2.len() >= gv(ds, g.width as int, p) + 1,
        forall|p: Num2D, n: Num2D|
            #![trigger closed_at(cs, g.width as int, p), adjacent(p, n)]
            g.in_bounds(p) && closed_at(cs, g.width as int, p) && adjacent(p, n) && g.free(n)
                ==> labeled(ds, g.width as int, n) && gv(ds, g.width as int, n) <= gv(
                ds,
                g.width as int,
                p,
            ) + 1,
        forall|p: Num2D|
            g.in_bounds(p) && #[trigger] labeled(ds, g.width as int, p) && !closed_at(
                cs,
                g.width as int,
                p,
            ) ==> exists|k: int|
                0 <= k < os.len() && (#[trigger] os[k]).node == p && os[k].dist == gv(
                    ds,
                    g.width as int,
                    p,
                ) + manhattan(p, d),
        0 <= m < os.len(),
        !closed_at(cs, g.width as int, os[m].node),
        forall|k: int| 0 <= k < os.len() ==> os[m].dist <= (#[trigger] os[k]).dist,
        os[m].dist == gv(ds, g.width as int, os[m].node) + manhattan(os[m].node, d),
        is_walk(g, q, o, os[m].node),
    ensures
        q.len() >= gv(ds, g.width as int, os[m].node) + 1,
{
    let w = g.width as int;
    let u = os[m].node;
    let fu = os[m].dist as int;
    {
        let ll = q.len() as int;
        assert(q[ll - 1] == u);
        let j = first_not_closed(cs, w, q);
        let v = q[j];
        assert(g.in_bounds(v));
        // First, v is labeled with a cost of at most j.
        if j == 0 {
            assert(v == o);
            assert(gv(ds, w, v) <= j);
        } else {
            let prev = q[j - 1];
            assert(closed_at(cs, w, prev));
            lemma_walk_prefix(g, q, o, u, j);
            assert(is_walk(g, q.subrange(0, j), o, prev));
            assert(q.subrange(0, j).len() >= gv(ds, w, prev) + 1);
            assert(adjacent(prev, v));
            assert(g.free(v));
            assert(labeled(ds, w, v) && gv(ds, w, v) <= gv(ds, w, prev) + 1);
            assert(gv(ds, w, v) <= j);
        }
        // So v has a queue entry, and the popped estimate is no larger.
        assert(labeled(ds, w, v) && !closed_at(cs, w, v));
        let kv = choose|k: int|
            0 <= k < os.len() && (#[trigger] os[k]).node == v && os[k].dist == gv(ds, w, v)
                + manhattan(v, d);
        assert(fu <= gv(ds, w, v) + manhattan(v, d));
        // The walk's tail bounds v's heuristic by the remaining steps.
        let s = q.subrange(j, ll);
        assert(forall|i: int| 0 <= i < s.len() ==> s[i] == #[trigger] q[i + j]);
        assert forall|i: int| 0 <= i < s.len() - 1 implies adjacent(#[trigger] s[i], s[i + 1]) by {
            assert(s[i] == q[i + j] && s[i + 1] == q[i + j + 1]);
            assert(adjacent(q[i + j], q[i + j + 1]));
        }
        lemma_adj_chain_manhattan(s, d);
        assert(s[0] == v && s[s.len() - 1] == u);
        assert(manhattan(v, d) <= ll - 1 - j + manhattan(u, d));
        // Chain the inequalities: the cost of u is at most the walk's moves.
        assert(gv(ds, w, u) + manhattan(u, d) <= j + (ll - 1 - j) + manhattan(u, d));
    }
}

proof fn lemma_ntrue_push(s: Seq<bool>, b: bool)
    ensures
        ntrue(s.push(b)) == ntrue(s) + if b {
            1int
        } else {
            0int
        },
{
    assert(s.push(b).drop_last() =~= s);
}

/// Manhattan distance between two nearby cells, as a machine integer.
fn manhattan_cells(a: Num2D, b: Num2D) -> (r: usize)
    requires
        0 <= a.x < 0x10000,
        0 <= a.y < 0x10000,
        0 <= b.x < 0x10000,
        0 <= b.y < 0x10000,
    ensures
        r == manhattan(a, b),
{
    let dx: i64 = if a.x >= b.x {
        a.x - b.x
    } else {
        b.x - a.x
    };
    let dy: i64 = if a.y >= b.y {
        a.y - b.y
    } else {
        b.y - a.y
    };
    (dx + dy) as usize
}

/// Examines one neighbour `v` of the just-finalized cell `u`: if `v` is
/// traversable and the route through `u` improves on `v`'s best-known cost,
/// the cost and predecessor are re-recorded and `v` is queued at its new
/// estimate.  Cells other than `v` are untouched.
#[verifier::rlimit(100)]
#[verifier::spinoff_prover]
fn relax(
    grid: &NavigableGrid,
    origin: Ghost<Num2D>,
    destination: Num2D,
    u: Num2D,
    v: Num2D,
    dist: &mut Vec<Option<usize>>,
    pred: &mut Vec<Option<Num2D>>,
    closed: &Vec<bool>,
    open: &mut Vec<NodeDistance>,
)
    requires
        search_inv_at(
            *grid,
            origin@,
            destination,
            old(dist)@,
            old(pred)@,
            closed@,
            old(open)@,
            Some(u),
        ),
        grid.in_bounds(u),
        closed_at(closed@, grid.width as int, u),
        adjacent(u, v),
        grid.in_bounds(v),
        gv(old(dist)@, grid.width as int, u) + 1 <= ntrue(closed@),
    ensures
        search_inv_at(
            *grid,
            origin@,
            destination,
            final(dist)@,
            final(pred)@,
            closed@,
            final(open)@,
            Some(u),
        ),
        grid.free(v) ==> labeled(final(dist)@, grid.width as int, v) && gv(
            final(dist)@,
            grid.width as int,
            v,
        ) <= gv(final(dist)@, grid.width as int, u) + 1,
        forall|p: Num2D|
            grid.in_bounds(p) && p != v ==> final(dist)@[cidx(grid.width as int, p)] == old(
                dist,
            )@[cidx(grid.width as int, p)] && final(pred)@[cidx(grid.width as int, p)] == old(
                pred,
            )@[cidx(grid.width as int, p)],
        final(dist)@.len() == old(dist)@.len(),
        final(pred)@.len() == old(pred)@.len(),
{
    let ghost w = grid.width as int;
    let ghost o = origin@;
    let ghost d = destination;
    let ghost ds0 = dist@;
    let ghost ps0 = pred@;
    proof {
        reveal(search_inv_at);
        assert(dist@.len() == grid.width * grid.height);
        assert(pred@.len() == grid.width * grid.height);
        assert(closed@.len() == grid.width * grid.height);
        assert(labeled(ds0, w, u));
    }
    if !grid.is_traversable(v) {
        return ;
    }
    let iu = grid.cell_index(u);
    let iv = grid.cell_index(v);
    proof {
        lemma_grid_index_inj(
            w,
            grid.height as int,
            u.x as int,
            u.y as int,
            v.x as int,
            v.y as int,
        );
    }
    let gu: usize = dist[iu].unwrap();
    proof {
        lemma_ntrue_le_len(closed@);
        lemma_grid_index_bounds(w, grid.height as int, v.x as int, v.y as int);
    }
    let nd: usize = gu + 1;
    if closed[iv] {
        proof {
            lemma_relax_closed(*grid, o, d, ds0, ps0, closed@, old(open)@, u, v);
        }
        return ;
    }
    let dv = dist[iv];
    let improves: bool = match dv {
        Some(b) => nd < b,
        None => true,
    };
    if improves {
        dist.set(iv, Some(nd));
        pred.set(iv, Some(u));
        let f: usize = nd + manhattan_cells(v, destination);
        open.push(NodeDistance { node: v, dist: f });
        proof {
            lemma_relax_update(
                *grid,
                o,
                d,
                ds0,
                ps0,
                closed@,
                old(open)@,
                u,
                v,
                nd,
                f,
                dist@,
                pred@,
                open@,
            );
        }
    }
}

/// A finalized neighbour `v` of the just-finalized cell `u` already has a
/// settled cost within one step of `u`'s: the walk that realizes `u`'s cost
/// extends by one step onto `v`, and `v`'s cost is a lower bound on that
/// walk.
#[verifier::spinoff_prover]
proof fn lemma_relax_closed(
    g: NavigableGrid,
    o: Num2D,
    d: Num2D,
    ds0: Seq<Option<usize>>,
    ps0: Seq<Option<Num2D>>,
    cs: Seq<bool>,
    os0: Seq<NodeDistance>,
    u: Num2D,
    v: Num2D,
)
    requires
        search_inv_at(g, o, d, ds0, ps0, cs, os0, Some(u)),
        g.in_bounds(u),
        closed_at(cs, g.width as int, u),
        adjacent(u, v),
        g.free(v),
        closed_at(cs, g.width as int, v),
    ensures
        labeled(ds0, g.width as int, v),
        gv(ds0, g.width as int, v) <= gv(ds0, g.width as int, u) + 1,
{
    reveal(search_inv_at);
    let w = g.width as int;
    let qu = choose|q: Seq<Num2D>| is_walk(g, q, o, u) && q.len() == gv(ds0, w, u) + 1;
    lemma_walk_extend(g, qu, o, u, v);
    assert(is_walk(g, qu.push(v), o, v));
    assert(qu.push(v).len() >= gv(ds0, w, v) + 1);
}

/// Re-records cell `v`'s cost as `nd` through predecessor `u` and queues it:
/// every clause of the search invariant survives, because only `v`'s row
/// changes and it changes to a strictly better, realizable cost.
#[verifier::rlimit(100)]
#[verifier::spinoff_prover]
proof fn lemma_relax_update(
    g: NavigableGrid,
    o: Num2D,
    d: Num2D,
    ds0: Seq<Option<usize>>,
    ps0: Seq<Option<Num2D>>,
    cs: Seq<bool>,
    os0: Seq<NodeDistance>,
    u: Num2D,
    v: Num2D,
    nd: usize,
    f: usize,
    ds1: Seq<Option<usize>>,
    ps1: Seq<Option<Num2D>>,
    os1: Seq<NodeDistance>,
)
    requires
        search_inv_at(g, o, d, ds0, ps0, cs, os0, Some(u)),
        g.in_bounds(u),
        closed_at(cs, g.width as int, u),
        adjacent(u, v),
        g.free(v),
        !closed_at(cs, g.width as int, v),
        nd == gv(ds0, g.width as int, u) + 1,
        nd <= ntrue(cs),
        !labeled(ds0, g.width as int, v) || nd < gv(ds0, g.width as int, v),
        f == nd + manhattan(v, d),
        ds1 == ds0.update(cidx(g.width as int, v), Some(nd)),
        ps1 == ps0.update(cidx(g.width as int, v), Some(u)),
        os1 == os0.push(NodeDistance { node: v, dist: f }),
    ensures
        search_inv_at(g, o, d, ds1, ps1, cs, os1, Some(u)),
        labeled(ds1, g.width as int, v),
        gv(ds1, g.width as int, v) == nd,
        forall|p: Num2D|
            g.in_bounds(p) && p != v ==> ds1[cidx(g.width as int, p)] == ds0[cidx(
                g.width as int,
                p,
            )] && ps1[cidx(g.width as int, p)] == ps0[cidx(g.width as int, p)],
{
    reveal(search_inv_at);
    let w = g.width as int;
    lemma_grid_index_bounds(w, g.height as int, v.x as int, v.y as int);
    assert forall|p: Num2D| g.in_bounds(p) && p != v implies ds1[cidx(w, p)] == ds0[cidx(w, p)]
        && ps1[cidx(w, p)] == ps0[cidx(w, p)] by {
        lemma_grid_index_inj(w, g.height as int, p.x as int, p.y as int, v.x as int, v.y as int);
        lemma_grid_index_bounds(w, g.height as int, p.x as int, p.y as int);
    }
    assert(labeled(ds1, w, v) && gv(ds1, w, v) == nd);
    assert(pred_at(ps1, w, v) == Some(u));
    assert(v != o);
    assert(u != v);
    assert(labeled(ds1, w, o) && gv(ds1, w, o) == 0 && pred_at(ps1, w, o) is None);
    // costs stay within the finalized count
    assert forall|p: Num2D| g.in_bounds(p) && #[trigger] labeled(ds1, w, p) implies 0 <= gv(
        ds1,
        w,
        p,
    ) <= ntrue(cs) by {
        if p != v {
            assert(labeled(ds0, w, p));
        }
    }
    // finalized cells stay labeled
    assert forall|p: Num2D| g.in_bounds(p) && #[trigger] closed_at(cs, w, p) implies labeled(
        ds1,
        w,
        p,
    ) by {
        assert(p != v);
        assert(labeled(ds0, w, p));
    }
    // realizability: `v`'s new cost is realized by extending a walk to `u`
    assert forall|p: Num2D| g.in_bounds(p) && #[trigger] labeled(ds1, w, p) implies exists|
        q: Seq<Num2D>,
    | is_walk(g, q, o, p) && q.len() == gv(ds1, w, p) + 1 by {
        if p == v {
            let qu = choose|q: Seq<Num2D>| is_walk(g, q, o, u) && q.len() == gv(ds0, w, u) + 1;
            lemma_walk_extend(g, qu, o, u, v);
            assert(is_walk(g, qu.push(v), o, v) && qu.push(v).len() == gv(ds1, w, v) + 1);
        } else {
            assert(labeled(ds0, w, p));
            let q = choose|q: Seq<Num2D>| is_walk(g, q, o, p) && q.len() == gv(ds0, w, p) + 1;
            assert(is_walk(g, q, o, p) && q.len() == gv(ds1, w, p) + 1);
        }
    }
    // lower bounds at finalized cells are untouched
    assert forall|p: Num2D, q: Seq<Num2D>|
        #![trigger closed_at(cs, w, p), is_walk(g, q, o, p)]
        g.in_bounds(p) && closed_at(cs, w, p) && is_walk(g, q, o, p) implies q.len() >= gv(
        ds1,
        w,
        p,
    ) + 1 by {
        assert(p != v);
        assert(gv(ds1, w, p) == gv(ds0, w, p));
    }
    // examined finalized cells still see every traversable neighbour labeled
    assert forall|p: Num2D, n: Num2D|
        #![trigger closed_at(cs, w, p), adjacent(p, n)]
        g.in_bounds(p) && closed_at(cs, w, p) && Some(p) != Some(u) && adjacent(p, n) && g.free(
        n,
    ) implies labeled(ds1, w, n) && gv(ds1, w, n) <= gv(ds1, w, p) + 1 by {
        assert(p != v);
        assert(labeled(ds0, w, n) && gv(ds0, w, n) <= gv(ds0, w, p) + 1);
        if n == v {
            assert(gv(ds1, w, v) == nd);
        }
    }
    // queue coverage: old entries keep their indices, `v` has the new one
    assert forall|p: Num2D|
        g.in_bounds(p) && #[trigger] labeled(ds1, w, p) && !closed_at(cs, w, p) implies exists|
        k: int,
    |
        0 <= k < os1.len() && (#[trigger] os1[k]).node == p && os1[k].dist == gv(ds1, w, p)
            + manhattan(p, d) by {
        if p == v {
            assert(os1[os1.len() - 1].node == v);
            assert(os1[os1.len() - 1].dist == gv(ds1, w, v) + manhattan(v, d));
        } else {
            assert(labeled(ds0, w, p));
            let k0 = choose|k: int|
                0 <= k < os0.len() && (#[trigger] os0[k]).node == p && os0[k].dist == gv(ds0, w, p)
                    + manhattan(p, d);
            assert(os1[k0] == os0[k0]);
        }
    }
    // queue entries still name labeled cells at no less than their estimate
    assert forall|k: int| 0 <= k < os1.len() implies g.in_bounds((#[trigger] os1[k]).node)
        && labeled(ds1, w, os1[k].node) && gv(ds1, w, os1[k].node) + manhattan(os1[k].node, d)
        <= os1[k].dist by {
        if k < os0.len() {
            assert(os1[k] == os0[k]);
            let p = os0[k].node;
            assert(labeled(ds0, w, p));
            if p == v {
                assert(gv(ds1, w, v) == nd);
            }
        } else {
            assert(os1[k] == NodeDistance { node: v, dist: f });
        }
    }
    // predecessor chains: `v` now points one step back at `u`; nothing else
    // moved, and no recorded predecessor was `v`, as they are all finalized
    assert forall|p: Num2D| g.in_bounds(p) && #[trigger] labeled(ds1, w, p) && p != o implies (
    pred_at(ps1, w, p) matches Some(pu) && g.in_bounds(pu) && adjacent(pu, p) && labeled(ds1, w, pu)
        && closed_at(cs, w, pu) && gv(ds1, w, pu) + 1 == gv(ds1, w, p) && g.free(p)) by {
        if p == v {
            assert(pred_at(ps1, w, v) == Some(u));
            assert(gv(ds1, w, u) == gv(ds0, w, u));
        } else {
            assert(labeled(ds0, w, p));
            assert(pred_at(ps1, w, p) == pred_at(ps0, w, p));
            let pu = pred_at(ps0, w, p)->Some_0;
            assert(closed_at(cs, w, pu));
            assert(pu != v);
            assert(gv(ds1, w, pu) == gv(ds0, w, pu));
        }
    }
}

/// The freshly initialized tables satisfy the search invariant: only the
/// origin is labeled, at cost zero, with its one queue entry.
#[verifier::spinoff_prover]
proof fn lemma_astar_init(
    g: NavigableGrid,
    o: Num2D,
    d: Num2D,
    ds: Seq<Option<usize>>,
    ps: Seq<Option<Num2D>>,
    cs: Seq<bool>,
    os: Seq<NodeDistance>,
)
    requires
        g.wf(),
        g.in_bounds(o),
        g.in_bounds(d),
        ds.len() == g.width * g.height,
        ps.len() == g.width * g.height,
        cs.len() == g.width * g.height,
        forall|j: int| 0 <= j < ds.len() ==> ds[j] == (if j == cidx(g.width as int, o) {
            Some(0usize)
        } else {
            None
        }),
        forall|j: int| 0 <= j < ps.len() ==> ps[j] is None,
        forall|j: int| 0 <= j < cs.len() ==> !cs[j],
        ntrue(cs) == 0,
        os.len() == 1,
        os[0].node == o,
        os[0].dist == manhattan(o, d),
    ensures
        search_inv(g, o, d, ds, ps, cs, os),
{
    reveal(search_inv_at);
    let w = g.width as int;
    lemma_grid_index_bounds(w, g.height as int, o.x as int, o.y as int);
    assert(labeled(ds, w, o) && gv(ds, w, o) == 0);
    assert forall|p: Num2D| g.in_bounds(p) implies !closed_at(cs, w, p) && pred_at(
        ps,
        w,
        p,
    ) is None by {
        lemma_grid_index_bounds(w, g.height as int, p.x as int, p.y as int);
    }
    assert forall|p: Num2D| g.in_bounds(p) && #[trigger] labeled(ds, w, p) implies p == o && gv(
        ds,
        w,
        p,
    ) == 0 by {
        lemma_grid_index_bounds(w, g.height as int, p.x as int, p.y as int);
        if p != o {
            lemma_grid_index_inj(w, g.height as int, p.x as int, p.y as int, o.x as int, o.y as int);
        }
    }
    assert forall|p: Num2D| g.in_bounds(p) && #[trigger] labeled(ds, w, p) implies exists|
        q: Seq<Num2D>,
    | is_walk(g, q, o, p) && q.len() == gv(ds, w, p) + 1 by {
        assert(is_walk(g, seq![o], o, o) && seq![o].len() == 1);
    }
    assert forall|p: Num2D|
        g.in_bounds(p) && #[trigger] labeled(ds, w, p) && !closed_at(cs, w, p) implies exists|
        k: int,
    |
        0 <= k < os.len() && (#[trigger] os[k]).node == p && os[k].dist == gv(ds, w, p)
            + manhattan(p, d) by {
        assert(os[0].node == o && os[0].dist == gv(ds, w, o) + manhattan(o, d));
    }
}

/// Finalizing the popped cell keeps the invariant, with the cell itself
/// exempt from the neighbours-examined clause until its expansion runs: the
/// popped estimate was minimal, so the cell's cost is settled.
#[verifier::rlimit(100)]
#[verifier::spinoff_prover]
proof fn lemma_close_update(
    g: NavigableGrid,
    o: Num2D,
    d: Num2D,
    ds: Seq<Option<usize>>,
    ps: Seq<Option<Num2D>>,
    cs0: Seq<bool>,
    os0: Seq<NodeDistance>,
    m: int,
    u: Num2D,
    cs1: Seq<bool>,
    os1: Seq<NodeDistance>,
)
    requires
        search_inv(g, o, d, ds, ps, cs0, os0),
        0 <= m < os0.len(),
        os0[m].node == u,
        !closed_at(cs0, g.width as int, u),
        u != d,
        forall|q: Seq<Num2D>|
            #[trigger] is_walk(g, q, o, u) ==> q.len() >= gv(ds, g.width as int, u) + 1,
        os1 == os0.remove(m),
        cs1 == cs0.update(cidx(g.width as int, u), true),
    ensures
        search_inv_at(g, o, d, ds, ps, cs1, os1, Some(u)),
        ntrue(cs1) == ntrue(cs0) + 1,
        gv(ds, g.width as int, u) + 1 <= ntrue(cs1),
        closed_at(cs1, g.width as int, u),
        g.in_bounds(u),
{
    reveal(search_inv_at);
    let w = g.width as int;
    assert(g.in_bounds(u));
    lemma_grid_index_bounds(w, g.height as int, u.x as int, u.y as int);
    lemma_ntrue_update(cs0, cidx(w, u));
    os0.remove_ensures(m);
    assert forall|p: Num2D| g.in_bounds(p) && p != u implies cs1[cidx(w, p)] == cs0[cidx(
        w,
        p,
    )] by {
        lemma_grid_index_inj(w, g.height as int, p.x as int, p.y as int, u.x as int, u.y as int);
        lemma_grid_index_bounds(w, g.height as int, p.x as int, p.y as int);
    }
    assert(closed_at(cs1, w, u));
    assert(labeled(ds, w, u));
    assert(gv(ds, w, u) <= ntrue(cs0));
    // finalized cells stay labeled, with settled lower bounds
    assert forall|p: Num2D| g.in_bounds(p) && #[trigger] closed_at(cs1, w, p) implies labeled(
        ds,
        w,
        p,
    ) by {
        if p != u {
            assert(closed_at(cs0, w, p));
        }
    }
    assert forall|p: Num2D, q: Seq<Num2D>|
        #![trigger closed_at(cs1, w, p), is_walk(g, q, o, p)]
        g.in_bounds(p) && closed_at(cs1, w, p) && is_walk(g, q, o, p) implies q.len() >= gv(
        ds,
        w,
        p,
    ) + 1 by {
        if p != u {
            assert(closed_at(cs0, w, p));
        }
    }
    // neighbours of other finalized cells were already examined
    assert forall|p: Num2D, n: Num2D|
        #![trigger closed_at(cs1, w, p), adjacent(p, n)]
        g.in_bounds(p) && closed_at(cs1, w, p) && Some(p) != Some(u) && adjacent(p, n) && g.free(
        n,
    ) implies labeled(ds, w, n) && gv(ds, w, n) <= gv(ds, w, p) + 1 by {
        assert(closed_at(cs0, w, p));
    }
    // queue coverage survives the removal: the removed entry was `u`'s
    assert forall|p: Num2D|
        g.in_bounds(p) && #[trigger] labeled(ds, w, p) && !closed_at(cs1, w, p) implies exists|
        k: int,
    |
        0 <= k < os1.len() && (#[trigger] os1[k]).node == p && os1[k].dist == gv(ds, w, p)
            + manhattan(p, d) by {
        assert(p != u);
        assert(!closed_at(cs0, w, p));
        let k0 = choose|k: int|
            0 <= k < os0.len() && (#[trigger] os0[k]).node == p && os0[k].dist == gv(ds, w, p)
                + manhattan(p, d);
        assert(k0 != m);
        if k0 < m {
            assert(os1[k0] == os0[k0]);
        } else {
            assert(os1[k0 - 1] == os0[k0]);
        }
    }
    assert forall|k: int| 0 <= k < os1.len() implies g.in_bounds((#[trigger] os1[k]).node)
        && labeled(ds, w, os1[k].node) && gv(ds, w, os1[k].node) + manhattan(os1[k].node, d)
        <= os1[k].dist by {
        if k < m {
            assert(os1[k] == os0[k]);
        } else {
            assert(os1[k] == os0[k + 1]);
        }
    }
    // predecessor targets were finalized before, so they stay finalized
    assert forall|p: Num2D| g.in_bounds(p) && #[trigger] labeled(ds, w, p) && p != o implies (
    pred_at(ps, w, p) matches Some(pu) && g.in_bounds(pu) && adjacent(pu, p) && labeled(ds, w, pu)
        && closed_at(cs1, w, pu) && gv(ds, w, pu) + 1 == gv(ds, w, p) && g.free(p)) by {
        let pu = pred_at(ps, w, p)->Some_0;
        assert(closed_at(cs0, w, pu));
        if pu != u {
            assert(cs1[cidx(w, pu)] == cs0[cidx(w, pu)]);
        }
    }
    assert(!closed_at(cs1, w, d));
}

/// Once every traversable neighbour of the just-finalized cell has been
/// examined, the settled invariant holds again.
#[verifier::spinoff_prover]
proof fn lemma_expand_done(
    g: NavigableGrid,
    o: Num2D,
    d: Num2D,
    ds: Seq<Option<usize>>,
    ps: Seq<Option<Num2D>>,
    cs: Seq<bool>,
    os: Seq<NodeDistance>,
    u: Num2D,
)
    requires
        search_inv_at(g, o, d, ds, ps, cs, os, Some(u)),
        g.in_bounds(u),
        closed_at(cs, g.width as int, u),
        forall|n: Num2D|
            #[trigger] adjacent(u, n) && g.free(n) ==> labeled(ds, g.width as int, n) && gv(
                ds,
                g.width as int,
                n,
            ) <= gv(ds, g.width as int, u) + 1,
    ensures
        search_inv(g, o, d, ds, ps, cs, os),
{
    reveal(search_inv_at);
    let w = g.width as int;
    assert forall|p: Num2D, n: Num2D|
        #![trigger closed_at(cs, w, p), adjacent(p, n)]
        g.in_bounds(p) && closed_at(cs, w, p) && adjacent(p, n) && g.free(n) implies labeled(
        ds,
        w,
        n,
    ) && gv(ds, w, n) <= gv(ds, w, p) + 1 by {
        if p == u {
            assert(adjacent(u, n) && g.free(n));
        }
    }
}

/// One backward step of path reconstruction: the recorded predecessor
/// extends the rebuilt walk by one cell and sits exactly one cost unit
/// below the current cell.
#[verifier::spinoff_prover]
proof fn lemma_reconstruct_step(
    g: NavigableGrid,
    o: Num2D,
    d: Num2D,
    ds: Seq<Option<usize>>,
    ps: Seq<Option<Num2D>>,
    cur: Num2D,
    u: Num2D,
    path0: Seq<Num2D>,
)
    requires
        g.wf(),
        g.in_bounds(o),
        g.in_bounds(cur),
        labeled(ds, g.width as int, o),
        gv(ds, g.width as int, o) == 0,
        pred_at(ps, g.width as int, o) is None,
        labeled(ds, g.width as int, cur),
        forall|p: Num2D|
            g.in_bounds(p) && #[trigger] labeled(ds, g.width as int, p) && p != o ==> (pred_at(
                ps,
                g.width as int,
                p,
            ) matches Some(pu) && g.in_bounds(pu) && adjacent(pu, p) && labeled(
                ds,
                g.width as int,
                pu,
            ) && gv(ds, g.width as int, pu) + 1 == gv(ds, g.width as int, p) && g.free(p)),
        pred_at(ps, g.width as int, cur) == Some(u),
        is_walk(g, path0 + seq![d], cur, d),
    ensures
        cur != o,
        g.in_bounds(u),
        labeled(ds, g.width as int, u),
        gv(ds, g.width as int, u) + 1 == gv(ds, g.width as int, cur),
        is_walk(g, (seq![u] + path0) + seq![d], u, d),
{
    let w = g.width as int;
    assert(cur != o);
    assert(g.free(cur));
    let q0 = path0 + seq![d];
    assert(q0[0] == cur);
    lemma_walk_prepend(g, q0, u, cur, d);
    assert((seq![u] + path0) + seq![d] =~= seq![u] + q0);
}

/// Walks the recorded predecessors back from the destination and returns
/// the waypoints from the origin up to, but not including, the destination:
/// as many cells as the destination's settled cost.
#[verifier::rlimit(100)]
#[verifier::spinoff_prover]
fn reconstruct(
    grid: &NavigableGrid,
    origin: Num2D,
    destination: Num2D,
    dist: &Vec<Option<usize>>,
    pred: &Vec<Option<Num2D>>,
) -> (path: Vec<Num2D>)
    requires
        grid.wf(),
        grid.in_bounds(origin),
        grid.in_bounds(destination),
        dist@.len() == grid.width * grid.height,
        pred@.len() == grid.width * grid.height,
        labeled(dist@, grid.width as int, origin),
        gv(dist@, grid.width as int, origin) == 0,
        pred_at(pred@, grid.width as int, origin) is None,
        labeled(dist@, grid.width as int, destination),
        forall|p: Num2D|
            grid.in_bounds(p) && #[trigger] labeled(dist@, grid.width as int, p) && p != origin
                ==> (pred_at(pred@, grid.width as int, p) matches Some(pu) && grid.in_bounds(pu)
                && adjacent(pu, p) && labeled(dist@, grid.width as int, pu) && gv(
                dist@,
                grid.width as int,
                pu,
            ) + 1 == gv(dist@, grid.width as int, p) && grid.free(p)),
    ensures
        is_walk(*grid, path@.push(destination), origin, destination),
        path@.len() == gv(dist@, grid.width as int, destination),
{
    let ghost w = grid.width as int;
    let mut cur: Num2D = destination;
    let mut path: Vec<Num2D> = Vec::new();
    proof {
        assert(is_walk(*grid, seq![cur], cur, destination));
        assert(path@ + seq![destination] =~= seq![cur]);
    }
    loop
        invariant
            grid.wf(),
            grid.in_bounds(origin),
            grid.in_bounds(destination),
            dist@.len() == grid.width * grid.height,
            pred@.len() == grid.width * grid.height,
            labeled(dist@, w, origin),
            gv(dist@, w, origin) == 0,
            pred_at(pred@, w, origin) is None,
            w == grid.width as int,
            forall|p: Num2D|
                grid.in_bounds(p) && #[trigger] labeled(dist@, w, p) && p != origin ==> (pred_at(
                    pred@,
                    w,
                    p,
                ) matches Some(pu) && grid.in_bounds(pu) && adjacent(pu, p) && labeled(
                    dist@,
                    w,
                    pu,
                ) && gv(dist@, w, pu) + 1 == gv(dist@, w, p) && grid.free(p)),
            grid.in_bounds(cur),
            labeled(dist@, w, cur),
            is_walk(*grid, path@ + seq![destination], cur, destination),
            gv(dist@, w, cur) + path@.len() == gv(dist@, w, destination),
        ensures
            pred_at(pred@, w, cur) is None,
            grid.in_bounds(cur),
            labeled(dist@, w, cur),
            is_walk(*grid, path@ + seq![destination], cur, destination),
            gv(dist@, w, cur) + path@.len() == gv(dist@, w, destination),
        decreases gv(dist@, w, cur),
    {
        let ic = grid.cell_index(cur);
        match pred[ic] {
            Some(u) => {
                proof {
                    lemma_reconstruct_step(
                        *grid,
                        origin,
                        destination,
                        dist@,
                        pred@,
                        cur,
                        u,
                        path@,
                    );
                }
                let ghost path0 = path@;
                path.insert(0, u);
                proof {
                    assert(path@ =~= seq![u] + path0);
                    assert(path@ + seq![destination] =~= (seq![u] + path0) + seq![destination]);
                }
                cur = u;
            },
            None => {
                break ;
            },
        }
    }
    proof {
        assert(cur == origin);
        assert(path@.push(destination) =~= path@ + seq![destination]);
    }
    path
}

/// Discarding a queue entry whose cell was finalized earlier keeps the
/// invariant: such an entry is stale, and the cell's coverage does not rest
/// on it.
#[verifier::rlimit(100)]
#[verifier::spinoff_prover]
proof fn lemma_stale_pop(
    g: NavigableGrid,
    o: Num2D,
    d: Num2D,
    ds: Seq<Option<usize>>,
    ps: Seq<Option<Num2D>>,
    cs: Seq<bool>,
    os0: Seq<NodeDistance>,
    m: int,
    os1: Seq<NodeDistance>,
)
    requires
        search_inv(g, o, d, ds, ps, cs, os0),
        0 <= m < os0.len(),
        closed_at(cs, g.width as int, os0[m].node),
        os1 == os0.remove(m),
    ensures
        search_inv(g, o, d, ds, ps, cs, os1),
{
    reveal(search_inv_at);
    let w = g.width as int;
    os0.remove_ensures(m);
    assert forall|p: Num2D|
        g.in_bounds(p) && #[trigger] labeled(ds, w, p) && !closed_at(cs, w, p) implies exists|
        k: int,
    |
        0 <= k < os1.len() && (#[trigger] os1[k]).node == p && os1[k].dist == gv(ds, w, p)
            + manhattan(p, d) by {
        let k0 = choose|k: int|
            0 <= k < os0.len() && (#[trigger] os0[k]).node == p && os0[k].dist == gv(ds, w, p)
                + manhattan(p, d);
        assert(k0 != m);
        if k0 < m {
            assert(os1[k0] == os0[k0]);
        } else {
            assert(os1[k0 - 1] == os0[k0]);
        }
    }
    assert forall|k: int| 0 <= k < os1.len() implies g.in_bounds((#[trigger] os1[k]).node)
        && labeled(ds, w, os1[k].node) && gv(ds, w, os1[k].node) + manhattan(os1[k].node, d)
        <= os1[k].dist by {
        if k < m {
            assert(os1[k] == os0[k]);
        } else {
            assert(os1[k] == os0[k + 1]);
        }
    }
}

/// No walk leads to the destination once the queue has drained: every
/// labeled cell is finalized then, and finalized cells have all their
/// traversable neighbours labeled, so a walk from the (labeled) origin to
/// the never-finalized destination would have to cross an impossible edge.
#[verifier::rlimit(100)]
#[verifier::spinoff_prover]
proof fn lemma_exhausted_unreachable(
    g: NavigableGrid,
    o: Num2D,
    d: Num2D,
    ds: Seq<Option<usize>>,
    ps: Seq<Option<Num2D>>,
    cs: Seq<bool>,
    os: Seq<NodeDistance>,
)
    requires
        search_inv(g, o, d, ds, ps, cs, os),
        os.len() == 0,
    ensures
        !reachable(g, o, d),
{
    reveal(search_inv_at);
    let w = g.width as int;
    assert forall|q: Seq<Num2D>| !is_walk(g, q, o, d) by {
        if is_walk(g, q, o, d) {
            assert(!closed_at(cs, w, d));
            assert(q[q.len() - 1] == d);
            let j = first_not_closed(cs, w, q);
            let v = q[j];
            assert(g.in_bounds(v));
            if j == 0 {
                assert(v == o);
                assert(labeled(ds, w, v));
            } else {
                let prev = q[j - 1];
                assert(closed_at(cs, w, prev));
                assert(adjacent(prev, v));
                assert(g.free(v));
                assert(labeled(ds, w, v));
            }
            assert(false);
        }
    }
}

/// A queue entry names a labeled, in-bounds cell, and the tables have one
/// row per grid cell.
proof fn lemma_entry_node(
    g: NavigableGrid,
    o: Num2D,
    d: Num2D,
    ds: Seq<Option<usize>>,
    ps: Seq<Option<Num2D>>,
    cs: Seq<bool>,
    os: Seq<NodeDistance>,
    k: int,
)
    requires
        search_inv(g, o, d, ds, ps, cs, os),
        0 <= k < os.len(),
    ensures
        g.in_bounds(os[k].node),
        labeled(ds, g.width as int, os[k].node),
        ds.len() == g.width * g.height,
        ps.len() == g.width * g.height,
        cs.len() == g.width * g.height,
{
    reveal(search_inv_at);
}

/// Index of the queued candidate with the least estimate; among equal
/// estimates the earliest-queued one.
fn min_entry_index(open: &Vec<NodeDistance>) -> (m: usize)
    requires
        open@.len() >= 1,
    ensures
        m < open@.len(),
        forall|k: int| 0 <= k < open@.len() ==> open@[m as int].dist <= (#[trigger] open@[k]).dist,
{
    let mut m: usize = 0;
    let mut j: usize = 1;
    while j < open.len()
        invariant
            open@.len() >= 1,
            m < j,
            1 <= j <= open@.len(),
            forall|k: int| 0 <= k < j ==> open@[m as int].dist <= (#[trigger] open@[k]).dist,
        decreases open@.len() - j,
    {
        if open[j].dist < open[m].dist {
            m = j;
        }
        j = j + 1;
    }
    m
}

/// After the four directional examinations, every traversable neighbour of
/// the just-finalized cell carries a cost within one step of its own: each
/// examination settles one direction and leaves the other cells' rows alone.
#[verifier::rlimit(100)]
#[verifier::spinoff_prover]
proof fn lemma_neighbours_examined(
    g: NavigableGrid,
    u: Num2D,
    ds0: Seq<Option<usize>>,
    ds1: Seq<Option<usize>>,
    ds2: Seq<Option<usize>>,
    ds3: Seq<Option<usize>>,
    ds4: Seq<Option<usize>>,
    c1: bool,
    c2: bool,
    c3: bool,
    c4: bool,
)
    requires
        g.wf(),
        g.in_bounds(u),
        c1 == (u.x > 0),
        c2 == (u.x + 1 < g.width as int),
        c3 == (u.y > 0),
        c4 == (u.y + 1 < g.height as int),
        c1 ==> (g.free(Num2D { x: (u.x - 1) as i64, y: u.y }) ==> labeled(
            ds1,
            g.width as int,
            Num2D { x: (u.x - 1) as i64, y: u.y },
        ) && gv(ds1, g.width as int, Num2D { x: (u.x - 1) as i64, y: u.y }) <= gv(
            ds1,
            g.width as int,
            u,
        ) + 1) && (forall|p: Num2D|
            g.in_bounds(p) && p != Num2D { x: (u.x - 1) as i64, y: u.y } ==> ds1[cidx(
                g.width as int,
                p,
            )] == ds0[cidx(g.width as int, p)]),
        !c1 ==> ds1 == ds0,
        c2 ==> (g.free(Num2D { x: (u.x + 1) as i64, y: u.y }) ==> labeled(
            ds2,
            g.width as int,
            Num2D { x: (u.x + 1) as i64, y: u.y },
        ) && gv(ds2, g.width as int, Num2D { x: (u.x + 1) as i64, y: u.y }) <= gv(
            ds2,
            g.width as int,
            u,
        ) + 1) && (forall|p: Num2D|
            g.in_bounds(p) && p != Num2D { x: (u.x + 1) as i64, y: u.y } ==> ds2[cidx(
                g.width as int,
                p,
            )] == ds1[cidx(g.width as int, p)]),
        !c2 ==> ds2 == ds1,
        c3 ==> (g.free(Num2D { x: u.x, y: (u.y - 1) as i64 }) ==> labeled(
            ds3,
            g.width as int,
            Num2D { x: u.x, y: (u.y - 1) as i64 },
        ) && gv(ds3, g.width as int, Num2D { x: u.x, y: (u.y - 1) as i64 }) <= gv(
            ds3,
            g.width as int,
            u,
        ) + 1) && (forall|p: Num2D|
            g.in_bounds(p) && p != Num2D { x: u.x, y: (u.y - 1) as i64 } ==> ds3[cidx(
                g.width as int,
                p,
            )] == ds2[cidx(g.width as int, p)]),
        !c3 ==> ds3 == ds2,
        c4 ==> (g.free(Num2D { x: u.x, y: (u.y + 1) as i64 }) ==> labeled(
            ds4,
            g.width as int,
            Num2D { x: u.x, y: (u.y + 1) as i64 },
        ) && gv(ds4, g.width as int, Num2D { x: u.x, y: (u.y + 1) as i64 }) <= gv(
            ds4,
            g.width as int,
            u,
        ) + 1) && (forall|p: Num2D|
            g.in_bounds(p) && p != Num2D { x: u.x, y: (u.y + 1) as i64 } ==> ds4[cidx(
                g.width as int,
                p,
            )] == ds3[cidx(g.width as int, p)]),
        !c4 ==> ds4 == ds3,
    ensures
        forall|n: Num2D|
            #[trigger] adjacent(u, n) && g.free(n) ==> labeled(ds4, g.width as int, n) && gv(
                ds4,
                g.width as int,
                n,
            ) <= gv(ds4, g.width as int, u) + 1,
{
    let w = g.width as int;
    let left = Num2D { x: (u.x - 1) as i64, y: u.y };
    let right = Num2D { x: (u.x + 1) as i64, y: u.y };
    let down = Num2D { x: u.x, y: (u.y - 1) as i64 };
    let up = Num2D { x: u.x, y: (u.y + 1) as i64 };
    assert forall|n: Num2D| #[trigger] adjacent(u, n) && g.free(n) implies labeled(ds4, w, n)
        && gv(ds4, w, n) <= gv(ds4, w, u) + 1 by {
        assert(n == left || n == right || n == down || n == up);
        assert(g.in_bounds(n));
        assert(g.in_bounds(u));
        if n == left {
            assert(c1);
            assert(ds2[cidx(w, left)] == ds1[cidx(w, left)]);
            assert(ds3[cidx(w, left)] == ds1[cidx(w, left)]);
            assert(ds4[cidx(w, left)] == ds1[cidx(w, left)]);
            assert(ds4[cidx(w, u)] == ds1[cidx(w, u)]);
        } else if n == right {
            assert(c2);
            assert(ds2[cidx(w, u)] == ds1[cidx(w, u)]);
            assert(ds4[cidx(w, right)] == ds2[cidx(w, right)]);
            assert(ds4[cidx(w, u)] == ds2[cidx(w, u)]);
        } else if n == down {
            assert(c3);
            assert(ds4[cidx(w, down)] == ds3[cidx(w, down)]);
            assert(ds4[cidx(w, u)] == ds3[cidx(w, u)]);
        } else {
            assert(c4);
        }
    }
}

/// When the popped least-estimate entry names the destination, the
/// destination's recorded cost is the length of a shortest walk, and it is
/// zero when the origin is the destination.
#[verifier::rlimit(100)]
#[verifier::spinoff_prover]
proof fn lemma_found(
    g: NavigableGrid,
    o: Num2D,
    d: Num2D,
    ds: Seq<Option<usize>>,
    ps: Seq<Option<Num2D>>,
    cs: Seq<bool>,
    os: Seq<NodeDistance>,
    m: int,
)
    requires
        search_inv(g, o, d, ds, ps, cs, os),
        0 <= m < os.len(),
        os[m].node == d,
        forall|k: int| 0 <= k < os.len() ==> os[m].dist <= (#[trigger] os[k]).dist,
    ensures
        labeled(ds, g.width as int, d),
        forall|q: Seq<Num2D>|
            #[trigger] is_walk(g, q, o, d) ==> q.len() >= gv(ds, g.width as int, d) + 1,
        o == d ==> gv(ds, g.width as int, d) == 0,
        labeled(ds, g.width as int, o),
        gv(ds, g.width as int, o) == 0,
        pred_at(ps, g.width as int, o) is None,
        forall|p: Num2D|
            g.in_bounds(p) && #[trigger] labeled(ds, g.width as int, p) && p != o ==> (pred_at(
                ps,
                g.width as int,
                p,
            ) matches Some(pu) && g.in_bounds(pu) && adjacent(pu, p) && labeled(
                ds,
                g.width as int,
                pu,
            ) && gv(ds, g.width as int, pu) + 1 == gv(ds, g.width as int, p) && g.free(p)),
        ds.len() == g.width * g.height,
        ps.len() == g.width * g.height,
{
    reveal(search_inv_at);
    lemma_pop_optimal(g, o, d, ds, ps, cs, os, m);
    if o == d {
        assert(is_walk(g, seq![o], o, d));
        assert(seq![o].len() >= gv(ds, g.width as int, d) + 1);
    }
}

/// Shortest-path search from `origin` to `destination` over the grid.
///
/// Both endpoints must lie within the grid extent; an endpoint outside it is
/// reported as `OutOfBounds`.  On success the returned sequence holds the
/// waypoints from the origin up to, but not including, the destination, in
/// front-to-back consumption order, so its length equals the number of moves;
/// each consecutive pair differs by one unit in one axis, every waypoint past
/// the origin and the destination itself are traversable, and no walk between
/// the endpoints is shorter.  When the origin equals the destination the path
/// is empty.  `NoPathFound` is returned exactly when no four-connected walk
/// over traversable cells reaches the destination, the blocked-destination
/// case included: the destination cell passes the same occupancy check as
/// every other cell.
///
/// Candidate cells are examined in order of cost-so-far plus Manhattan
/// estimate; among equal estimates the earliest-queued candidate is examined
/// first, which fixes deterministically which of several equally short paths
/// is returned.
#[verifier::rlimit(100)]
#[verifier::spinoff_prover]
pub fn astar(origin: Num2D, destination: Num2D, grid: &NavigableGrid) -> (r: Result<
    Vec<Num2D>,
    NavError,
>)
    requires
        grid.wf(),
    ensures
        !(grid.in_bounds(origin) && grid.in_bounds(destination)) ==> r == Err::<
            Vec<Num2D>,
            NavError,
        >(NavError::OutOfBounds),
        grid.in_bounds(origin) && grid.in_bounds(destination) ==> (match r {
            Ok(p) => {
                &&& is_walk(*grid, p@.push(destination), origin, destination)
                &&& forall|q: Seq<Num2D>|
                    #[trigger] is_walk(*grid, q, origin, destination) ==> q.len() >= p@.len() + 1
                &&& (origin == destination ==> p@.len() == 0)
            },
            Err(e) => e == NavError::NoPathFound && !reachable(*grid, origin, destination),
        }),
        r is Ok <==> grid.in_bounds(origin) && grid.in_bounds(destination) && reachable(
            *grid,
            origin,
            destination,
        ),
        grid.in_bounds(origin) && origin == destination ==> r is Ok,
{
    proof {
        if grid.in_bounds(origin) && origin == destination {
            lemma_self_reachable(*grid, origin);
        }
    }
    let ghost w = grid.width as int;
    if !(origin.x >= 0 && origin.x < grid.width as i64 && origin.y >= 0
        && origin.y < grid.height as i64 && destination.x >= 0
        && destination.x < grid.width as i64 && destination.y >= 0
        && destination.y < grid.height as i64) {
        return Err(NavError::OutOfBounds);
    }
    let total: usize = grid.cells.len();
    let mut dist: Vec<Option<usize>> = Vec::new();
    let mut pred: Vec<Option<Num2D>> = Vec::new();
    let mut closed: Vec<bool> = Vec::new();
    let mut i: usize = 0;
    while i < total
        invariant
            i <= total,
            dist@.len() == i,
            pred@.len() == i,
            closed@.len() == i,
            forall|j: int| 0 <= j < i ==> dist@[j] is None,
            forall|j: int| 0 <= j < i ==> pred@[j] is None,
            forall|j: int| 0 <= j < i ==> !closed@[j],
            ntrue(closed@) == 0,
        decreases total - i,
    {
        dist.push(None);
        pred.push(None);
        proof {
            lemma_ntrue_push(closed@, false);
        }
        closed.push(false);
        i = i + 1;
    }
    let io = grid.cell_index(origin);
    dist.set(io, Some(0));
    let f0 = manhattan_cells(origin, destination);
    let mut open: Vec<NodeDistance> = Vec::new();
    open.push(NodeDistance { node: origin, dist: f0 });
    proof {
        lemma_astar_init(*grid, origin, destination, dist@, pred@, closed@, open@);
    }
    while open.len() > 0
        invariant
            grid.wf(),
            grid.in_bounds(origin),
            grid.in_bounds(destination),
            search_inv(*grid, origin, destination, dist@, pred@, closed@, open@),
        decreases grid.width * grid.height - ntrue(closed@), open@.len(),
    {
        proof {
            lemma_ntrue_le_len(closed@);
        }
        let m: usize = min_entry_index(&open);
        let ghost os0 = open@;
        proof {
            lemma_entry_node(
                *grid,
                origin,
                destination,
                dist@,
                pred@,
                closed@,
                open@,
                m as int,
            );
        }
        let e = open.remove(m);
        let u = e.node;
        let iu = grid.cell_index(u);
        if closed[iu] {
            proof {
                lemma_stale_pop(
                    *grid,
                    origin,
                    destination,
                    dist@,
                    pred@,
                    closed@,
                    os0,
                    m as int,
                    open@,
                );
            }
            continue ;
        }
        proof {
            lemma_pop_optimal(
                *grid,
                origin,
                destination,
                dist@,
                pred@,
                closed@,
                os0,
                m as int,
            );
        }
        if u == destination {
            proof {
                lemma_found(*grid, origin, destination, dist@, pred@, closed@, os0, m as int);
            }
            let path = reconstruct(grid, origin, destination, &dist, &pred);
            return Ok(path);
        }
        let ghost cs0 = closed@;
        closed.set(iu, true);
        proof {
            lemma_close_update(
                *grid,
                origin,
                destination,
                dist@,
                pred@,
                cs0,
                os0,
                m as int,
                u,
                closed@,
                open@,
            );
        }
        let ghost ds_base = dist@;
        if u.x > 0 {
            relax(
                grid,
                Ghost(origin),
                destination,
                u,
                Num2D { x: u.x - 1, y: u.y },
                &mut dist,
                &mut pred,
                &closed,
                &mut open,
            );
        }
        let ghost ds1 = dist@;
        if u.x + 1 < grid.width as i64 {
            relax(
                grid,
                Ghost(origin),
                destination,
                u,
                Num2D { x: u.x + 1, y: u.y },
                &mut dist,
                &mut pred,
                &closed,
                &mut open,
            );
        }
        let ghost ds2 = dist@;
        if u.y > 0 {
            relax(
                grid,
                Ghost(origin),
                destination,
                u,
                Num2D { x: u.x, y: u.y - 1 },
                &mut dist,
                &mut pred,
                &closed,
                &mut open,
            );
        }
        let ghost ds3 = dist@;
        if u.y + 1 < grid.height as i64 {
            relax(
                grid,
                Ghost(origin),
                destination,
                u,
                Num2D { x: u.x, y: u.y + 1 },
                &mut dist,
                &mut pred,
                &closed,
                &mut open,
            );
        }
        proof {
            lemma_neighbours_examined(
                *grid,
                u,
                ds_base,
                ds1,
                ds2,
                ds3,
                dist@,
                u.x > 0,
                u.x + 1 < grid.width as int,
                u.y > 0,
                u.y + 1 < grid.height as int,
            );
            lemma_expand_done(
                *grid,
                origin,
                destination,
                dist@,
                pred@,
                closed@,
                open@,
                u,
            );
            lemma_ntrue_le_len(closed@);
        }
    }
    proof {
        lemma_exhausted_unreachable(
            *grid,
            origin,
            destination,
            dist@,
            pred@,
            closed@,
            open@,
        );
    }
    Err(NavError::NoPathFound)
}

} // verus!
