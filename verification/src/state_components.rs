//! The per-agent path cache and the batch that fills it.
//!
//! The cache maps an agent identifier to the not-yet-consumed tail of its
//! precomputed waypoint sequence, in simulation coordinates.  An agent with
//! no entry, or whose entry is used up, falls back to direct steering; the
//! movement controller consumes one waypoint at a time from the front.

use vstd::prelude::*;

use crate::calc_utils::MAX_SIM_COORD;
use crate::grid::NavigableGrid;
use crate::pathfinding::astar;
use crate::pathfinding::is_walk;
use crate::pathfinding::reachable;
use crate::pedestrian::Pedestrian;
use crate::utility_types::grid_of_sim;
use crate::utility_types::sim_of_grid;
use crate::utility_types::to_grid;
use crate::utility_types::to_simulation;
use crate::utility_types::Num2D;
use crate::utility_types::Sim2D;

verus! {

/// One agent's cached route: the waypoints and how many of them have
/// already been consumed.
pub struct PathEntry {
    pub id: u32,
    pub waypoints: Vec<Sim2D>,
    pub cursor: usize,
}

/// A simulation point the movement controller can steer toward without its
/// arithmetic leaving range.
pub open spec fn sim_in_range(p: Sim2D) -> bool {
    -MAX_SIM_COORD <= p.x <= MAX_SIM_COORD && -MAX_SIM_COORD <= p.y <= MAX_SIM_COORD
}

/// The not-yet-consumed waypoints of the first entry carrying `id`, if any.
pub open spec fn remaining_in(entries: Seq<PathEntry>, id: u32) -> Option<Seq<Sim2D>>
    decreases entries.len(),
{
    if entries.len() == 0 {
        None
    } else if entries[0].id == id {
        Some(entries[0].waypoints@.skip(entries[0].cursor as int))
    } else {
        remaining_in(entries.skip(1), id)
    }
}

/// When the first entry carrying `id` sits at position `j`, the remaining
/// waypoints are that entry's unconsumed tail.
proof fn lemma_remaining_found(entries: Seq<PathEntry>, id: u32, j: int)
    requires
        0 <= j < entries.len(),
        entries[j].id == id,
        forall|k: int| 0 <= k < j ==> (#[trigger] entries[k]).id != id,
    ensures
        remaining_in(entries, id) == Some(
            entries[j].waypoints@.skip(entries[j].cursor as int),
        ),
    decreases j,
{
    if j > 0 {
        let s = entries.skip(1);
        assert forall|k: int| 0 <= k < j - 1 implies (#[trigger] s[k]).id != id by {
            assert(s[k] == entries[k + 1]);
        }
        assert(s[j - 1] == entries[j]);
        lemma_remaining_found(s, id, j - 1);
    }
}

/// With no entry carrying `id`, there is nothing remaining.
proof fn lemma_remaining_absent(entries: Seq<PathEntry>, id: u32)
    requires
        forall|k: int| 0 <= k < entries.len() ==> (#[trigger] entries[k]).id != id,
    ensures
        remaining_in(entries, id) is None,
    decreases entries.len(),
{
    if entries.len() > 0 {
        let s = entries.skip(1);
        assert forall|k: int| 0 <= k < s.len() implies (#[trigger] s[k]).id != id by {
            assert(s[k] == entries[k + 1]);
        }
        lemma_remaining_absent(s, id);
    }
}

/// Replacing one entry with another of the same identifier leaves every
/// other identifier's remaining waypoints alone.
proof fn lemma_remaining_other(entries: Seq<PathEntry>, e1: Seq<PathEntry>, ix: int, id2: u32)
    requires
        entries.len() == e1.len(),
        0 <= ix < entries.len(),
        forall|k: int| 0 <= k < entries.len() && k != ix ==> entries[k] == #[trigger] e1[k],
        e1[ix].id == entries[ix].id,
        entries[ix].id != id2,
    ensures
        remaining_in(e1, id2) == remaining_in(entries, id2),
    decreases entries.len(),
{
    if entries.len() > 0 {
        if ix == 0 {
            assert(entries.skip(1) =~= e1.skip(1));
        } else {
            assert(e1[0] == entries[0]);
            let s0 = entries.skip(1);
            let s1 = e1.skip(1);
            assert forall|k: int| 0 <= k < s0.len() && k != ix - 1 implies s0[k]
                == #[trigger] s1[k] by {
                assert(s0[k] == entries[k + 1] && s1[k] == e1[k + 1]);
            }
            assert(s0[ix - 1] == entries[ix] && s1[ix - 1] == e1[ix]);
            lemma_remaining_other(s0, s1, ix - 1, id2);
        }
    }
}

/// Appending an entry with a different identifier leaves an identifier's
/// remaining waypoints alone.
proof fn lemma_remaining_push(entries: Seq<PathEntry>, e: PathEntry, id2: u32)
    requires
        e.id != id2,
    ensures
        remaining_in(entries.push(e), id2) == remaining_in(entries, id2),
    decreases entries.len(),
{
    let p = entries.push(e);
    if entries.len() == 0 {
        assert(p[0] == e);
        assert(p.skip(1) =~= Seq::<PathEntry>::empty());
        assert(remaining_in(p.skip(1), id2) is None);
        assert(remaining_in(p, id2) is None);
        assert(remaining_in(entries, id2) is None);
    } else {
        assert(p[0] == entries[0]);
        if entries[0].id == id2 {
            assert(remaining_in(p, id2) == remaining_in(entries, id2));
        } else {
            assert(p.skip(1) =~= entries.skip(1).push(e));
            lemma_remaining_push(entries.skip(1), e, id2);
            assert(remaining_in(p, id2) == remaining_in(p.skip(1), id2));
            assert(remaining_in(entries, id2) == remaining_in(entries.skip(1), id2));
        }
    }
}

/// The mapping from agent identifier to its cached, partly consumed route.
/// Entries carry distinct identifiers, consumed prefixes never pass the end,
/// and every waypoint is a steerable simulation point.
pub struct PathCache {
    pub entries: Vec<PathEntry>,
}

impl PathCache {
    pub open spec fn wf(self) -> bool {
        &&& forall|i: int|
            0 <= i < self.entries@.len() ==> (#[trigger] self.entries@[i]).cursor
                <= self.entries@[i].waypoints@.len()
        &&& forall|i: int, j: int|
            0 <= i < j < self.entries@.len() ==> (#[trigger] self.entries@[i]).id != (
            #[trigger] self.entries@[j]).id
        &&& forall|i: int, k: int|
            0 <= i < self.entries@.len() && 0 <= k < self.entries@[i].waypoints@.len()
                ==> sim_in_range(#[trigger] self.entries@[i].waypoints@[k])
    }

    /// The not-yet-consumed waypoints cached for this agent; `None` when no
    /// path is available.
    pub open spec fn remaining(self, id: u32) -> Option<Seq<Sim2D>> {
        remaining_in(self.entries@, id)
    }

    /// The waypoint the agent currently steers toward.
    pub open spec fn front_of(self, id: u32) -> Option<Sim2D> {
        match self.remaining(id) {
            Some(s) => if s.len() > 0 {
                Some(s[0])
            } else {
                None
            },
            None => None,
        }
    }

    /// The waypoint after the current one.
    pub open spec fn next_of(self, id: u32) -> Option<Sim2D> {
        match self.remaining(id) {
            Some(s) => if s.len() > 1 {
                Some(s[1])
            } else {
                None
            },
            None => None,
        }
    }

    /// Every remaining waypoint of a well-formed cache lies on the
    /// simulation plane.
    pub proof fn lemma_remaining_in_range(self, id: u32)
        requires
            self.wf(),
        ensures
            self.remaining(id) matches Some(s) ==> forall|k: int|
                0 <= k < s.len() ==> sim_in_range(#[trigger] s[k]),
    {
        lemma_remaining_in_range_rec(self.entries@, id);
    }

    pub fn new() -> (r: PathCache)
        ensures
            r.wf(),
            forall|id: u32| r.remaining(id) is None,
    {
        let r = PathCache { entries: Vec::new() };
        proof {
            assert forall|id: u32| r.remaining(id) is None by {
                lemma_remaining_absent(r.entries@, id);
            }
        }
        r
    }

    /// Index of the entry carrying `id`, if one exists.
    fn find(&self, id: u32) -> (r: Option<usize>)
        ensures
            match r {
                Some(ix) => ix < self.entries@.len() && self.entries@[ix as int].id == id
                    && forall|k: int| 0 <= k < ix ==> (#[trigger] self.entries@[k]).id != id,
                None => forall|k: int|
                    0 <= k < self.entries@.len() ==> (#[trigger] self.entries@[k]).id != id,
            },
    {
        let mut i: usize = 0;
        while i < self.entries.len()
            invariant
                i <= self.entries@.len(),
                forall|k: int| 0 <= k < i ==> (#[trigger] self.entries@[k]).id != id,
            decreases self.entries@.len() - i,
        {
            if self.entries[i].id == id {
                return Some(i);
            }
            i = i + 1;
        }
        None
    }

    /// The current waypoint for this agent, without consuming it.
    pub fn front(&self, id: u32) -> (r: Option<Sim2D>)
        requires
            self.wf(),
        ensures
            r == self.front_of(id),
            r matches Some(p) ==> sim_in_range(p),
    {
        match self.find(id) {
            Some(ix) => {
                proof {
                    lemma_remaining_found(self.entries@, id, ix as int);
                }
                let e = &self.entries[ix];
                if e.cursor < e.waypoints.len() {
                    Some(e.waypoints[e.cursor])
                } else {
                    None
                }
            },
            None => {
                proof {
                    lemma_remaining_absent(self.entries@, id);
                }
                None
            },
        }
    }

    /// Consumes this agent's current waypoint, if it has one; entries of
    /// other agents are untouched, and an absent or exhausted entry stays as
    /// it is.
    pub fn advance(&mut self, id: u32)
        requires
            old(self).wf(),
        ensures
            final(self).wf(),
            match old(self).remaining(id) {
                Some(s) => if s.len() > 0 {
                    final(self).remaining(id) == Some(s.skip(1))
                } else {
                    final(self).remaining(id) == Some(s)
                },
                None => final(self).remaining(id) is None,
            },
            forall|id2: u32| id2 != id ==> final(self).remaining(id2) == old(self).remaining(id2),
    {
        let ghost entries0 = self.entries@;
        match self.find(id) {
            Some(ix) => {
                proof {
                    lemma_remaining_found(entries0, id, ix as int);
                }
                let mut e = self.entries.remove(ix);
                if e.cursor < e.waypoints.len() {
                    e.cursor = e.cursor + 1;
                }
                self.entries.insert(ix, e);
                proof {
                    assert(self.entries@ =~= entries0.update(ix as int, e));
                    lemma_remaining_found(self.entries@, id, ix as int);
                    assert(self.entries@[ix as int].waypoints@.skip(
                        self.entries@[ix as int].cursor as int,
                    ) =~= entries0[ix as int].waypoints@.skip(
                        entries0[ix as int].cursor as int,
                    ).skip(1) || entries0[ix as int].cursor == entries0[ix as int].waypoints@.len());
                    if entries0[ix as int].cursor < entries0[ix as int].waypoints@.len() {
                        assert(self.entries@[ix as int].waypoints@.skip(
                            self.entries@[ix as int].cursor as int,
                        ) =~= entries0[ix as int].waypoints@.skip(
                            entries0[ix as int].cursor as int,
                        ).skip(1));
                    } else {
                        assert(self.entries@[ix as int] == entries0[ix as int]);
                    }
                    assert forall|id2: u32| id2 != id implies self.remaining(id2) == remaining_in(
                        entries0,
                        id2,
                    ) by {
                        lemma_remaining_other(entries0, self.entries@, ix as int, id2);
                    }
                }
            },
            None => {
                proof {
                    lemma_remaining_absent(entries0, id);
                }
            },
        }
    }

    /// Caches a freshly computed route for an agent not yet present.
    pub fn insert(&mut self, id: u32, waypoints: Vec<Sim2D>)
        requires
            old(self).wf(),
            old(self).remaining(id) is None,
            forall|k: int| 0 <= k < waypoints@.len() ==> sim_in_range(#[trigger] waypoints@[k]),
        ensures
            final(self).wf(),
            final(self).remaining(id) == Some(waypoints@),
            forall|id2: u32| id2 != id ==> final(self).remaining(id2) == old(self).remaining(id2),
    {
        let ghost entries0 = self.entries@;
        proof {
            assert forall|k: int| 0 <= k < entries0.len() implies (#[trigger] entries0[k]).id
                != id by {
                if entries0[k].id == id {
                    lemma_first_occurrence(entries0, id, k);
                }
            }
        }
        let e = PathEntry { id, waypoints, cursor: 0 };
        self.entries.push(e);
        proof {
            assert(self.entries@ =~= entries0.push(e));
            lemma_remaining_found(self.entries@, id, entries0.len() as int);
            assert(self.entries@[entries0.len() as int].waypoints@.skip(0) =~= e.waypoints@);
            assert forall|id2: u32| id2 != id implies self.remaining(id2) == remaining_in(
                entries0,
                id2,
            ) by {
                lemma_remaining_push(entries0, e, id2);
            }
        }
    }
}

/// The remaining waypoints always come from some entry's waypoint vector,
/// so they inherit its range bound.
proof fn lemma_remaining_in_range_rec(entries: Seq<PathEntry>, id: u32)
    requires
        forall|i: int|
            0 <= i < entries.len() ==> (#[trigger] entries[i]).cursor
                <= entries[i].waypoints@.len(),
        forall|i: int, k: int|
            0 <= i < entries.len() && 0 <= k < entries[i].waypoints@.len() ==> sim_in_range(
                #[trigger] entries[i].waypoints@[k],
            ),
    ensures
        remaining_in(entries, id) matches Some(s) ==> forall|k: int|
            0 <= k < s.len() ==> sim_in_range(#[trigger] s[k]),
    decreases entries.len(),
{
    if entries.len() == 0 {
    } else if entries[0].id == id {
        let s = entries[0].waypoints@.skip(entries[0].cursor as int);
        assert forall|k: int| 0 <= k < s.len() implies sim_in_range(#[trigger] s[k]) by {
            assert(s[k] == entries[0].waypoints@[k + entries[0].cursor as int]);
        }
    } else {
        let t = entries.skip(1);
        assert forall|i: int, k: int|
            0 <= i < t.len() && 0 <= k < t[i].waypoints@.len() implies sim_in_range(
            #[trigger] t[i].waypoints@[k],
        ) by {
            assert(t[i] == entries[i + 1]);
        }
        assert forall|i: int| 0 <= i < t.len() implies (#[trigger] t[i]).cursor
            <= t[i].waypoints@.len() by {
            assert(t[i] == entries[i + 1]);
        }
        lemma_remaining_in_range_rec(t, id);
    }
}

/// `s` is a shortest grid route from `og` to `dg`, promoted to simulation
/// coordinates: the image of a shortest walk's waypoints (the destination
/// cell excluded) under the cell-corner conversion.
pub open spec fn grid_route_of(g: NavigableGrid, og: Num2D, dg: Num2D, s: Seq<Sim2D>) -> bool {
    exists|p: Seq<Num2D>|
        {
            &&& #[trigger] is_walk(g, p.push(dg), og, dg)
            &&& (forall|q: Seq<Num2D>| #[trigger] is_walk(g, q, og, dg) ==> q.len() >= p.len() + 1)
            &&& s.len() == p.len()
            &&& forall|k: int| 0 <= k < p.len() ==> s[k] == sim_of_grid(#[trigger] p[k])
        }
}

/// An agent's path request can succeed: it has a destination, both
/// endpoints have cells (no negative coordinate), the cells lie on the
/// grid, and a walk connects them.
pub open spec fn route_request_ok(ped: Pedestrian, g: NavigableGrid) -> bool {
    match ped.dest {
        Some(t) => {
            &&& ped.loc.x >= 0
            &&& ped.loc.y >= 0
            &&& t.x >= 0
            &&& t.y >= 0
            &&& g.in_bounds(grid_of_sim(ped.loc))
            &&& g.in_bounds(grid_of_sim(t))
            &&& reachable(g, grid_of_sim(ped.loc), grid_of_sim(t))
        },
        None => false,
    }
}

/// What the cache holds for one agent after the batch build: a shortest
/// route when its request can succeed, nothing at all otherwise.
pub open spec fn route_outcome(ped: Pedestrian, g: NavigableGrid, cache: PathCache) -> bool {
    if route_request_ok(ped, g) {
        cache.remaining(ped.id) matches Some(s) && grid_route_of(
            g,
            grid_of_sim(ped.loc),
            grid_of_sim(ped.dest->Some_0),
            s,
        )
    } else {
        cache.remaining(ped.id) is None
    }
}

/// Some agent carries this identifier, asked for a route, and could not be
/// served.
pub open spec fn fails_for(peds: Seq<Pedestrian>, g: NavigableGrid, id: u32) -> bool {
    exists|i: int|
        0 <= i < peds.len() && (#[trigger] peds[i]).id == id && peds[i].dest is Some
            && !route_request_ok(peds[i], g)
}

/// Every reported identifier belongs to some agent whose request had a
/// destination and could not succeed.
pub open spec fn failed_report_ok(peds: Seq<Pedestrian>, g: NavigableGrid, failed: Seq<u32>) -> bool {
    forall|k: int|
        0 <= k < failed.len() ==> fails_for(peds, g, #[trigger] failed[k])
}

/// Precomputes one path per agent with a destination and stores it by agent
/// identifier, converting grid waypoints to simulation coordinates.  Agents
/// without a destination are skipped silently; agents whose request fails —
/// an endpoint with no cell, an endpoint off the grid, or an unreachable
/// destination — are skipped and their identifiers reported, so the batch
/// never aborts.
#[verifier::rlimit(100)]
#[verifier::spinoff_prover]
pub fn make_paths(pedestrians: &Vec<Pedestrian>, grid: &NavigableGrid) -> (r: (
    PathCache,
    Vec<u32>,
))
    requires
        grid.wf(),
        forall|i: int, j: int|
            0 <= i < j < pedestrians@.len() ==> (#[trigger] pedestrians@[i]).id != (
            #[trigger] pedestrians@[j]).id,
    ensures
        r.0.wf(),
        forall|i: int|
            0 <= i < pedestrians@.len() ==> route_outcome(#[trigger] pedestrians@[i], *grid, r.0),
        forall|id: u32|
            (forall|i: int| 0 <= i < pedestrians@.len() ==> (#[trigger] pedestrians@[i]).id != id)
                ==> r.0.remaining(id) is None,
        failed_report_ok(pedestrians@, *grid, r.1@),
        forall|i: int|
            0 <= i < pedestrians@.len() && (#[trigger] pedestrians@[i]).dest is Some
                && !route_request_ok(pedestrians@[i], *grid) ==> r.1@.contains(
                pedestrians@[i].id,
            ),
{
    let mut cache = PathCache::new();
    let mut failed: Vec<u32> = Vec::new();
    let ghost mut srcs: Seq<int> = Seq::empty();
    let mut i: usize = 0;
    while i < pedestrians.len()
        invariant
            grid.wf(),
            cache.wf(),
            i <= pedestrians@.len(),
            forall|a: int, b: int|
                0 <= a < b < pedestrians@.len() ==> (#[trigger] pedestrians@[a]).id != (
                #[trigger] pedestrians@[b]).id,
            forall|j: int|
                0 <= j < i ==> route_outcome(#[trigger] pedestrians@[j], *grid, cache),
            forall|id: u32|
                (forall|j: int| 0 <= j < i ==> (#[trigger] pedestrians@[j]).id != id)
                    ==> cache.remaining(id) is None,
            srcs.len() == failed@.len(),
            forall|k: int|
                0 <= k < failed@.len() ==> 0 <= #[trigger] srcs[k] < i
                    && pedestrians@[srcs[k]].id == failed@[k] && pedestrians@[srcs[k]].dest
                    is Some && !route_request_ok(pedestrians@[srcs[k]], *grid),
            forall|j: int|
                0 <= j < i && (#[trigger] pedestrians@[j]).dest is Some && !route_request_ok(
                    pedestrians@[j],
                    *grid,
                ) ==> failed@.contains(pedestrians@[j].id),
        decreases pedestrians@.len() - i,
    {
        let ped = pedestrians[i];
        proof {
            assert forall|j: int| 0 <= j < i implies (#[trigger] pedestrians@[j]).id != ped.id by {}
            assert(cache.remaining(ped.id) is None);
        }
        let ghost failed0 = failed@;
        match ped.dest {
            None => {},
            Some(t) => {
                if ped.loc.x >= 0 && ped.loc.y >= 0 && t.x >= 0 && t.y >= 0 {
                    let og = match to_grid(ped.loc) {
                        Ok(c) => c,
                        Err(_) => {
                            proof {
                                assert(false);
                            }
                            Num2D { x: 0, y: 0 }
                        },
                    };
                    let dg = match to_grid(t) {
                        Ok(c) => c,
                        Err(_) => {
                            proof {
                                assert(false);
                            }
                            Num2D { x: 0, y: 0 }
                        },
                    };
                    match astar(og, dg, grid) {
                        Ok(path) => {
                            let mut wps: Vec<Sim2D> = Vec::new();
                            let mut k: usize = 0;
                            proof {
                                assert(is_walk(*grid, path@.push(dg), og, dg));
                            }
                            while k < path.len()
                                invariant
                                    grid.wf(),
                                    k <= path@.len(),
                                    is_walk(*grid, path@.push(dg), og, dg),
                                    wps@.len() == k,
                                    forall|m: int|
                                        0 <= m < k ==> #[trigger] wps@[m] == sim_of_grid(
                                            path@[m],
                                        ) && sim_in_range(wps@[m]),
                                decreases path@.len() - k,
                            {
                                let c = path[k];
                                proof {
                                    assert(path@.push(dg)[k as int] == c);
                                    assert(grid.in_bounds(c));
                                }
                                let s = match to_simulation(c) {
                                    Ok(s) => s,
                                    Err(_) => {
                                        proof {
                                            assert(false);
                                        }
                                        Sim2D { x: 0, y: 0 }
                                    },
                                };
                                wps.push(s);
                                k = k + 1;
                            }
                            cache.insert(ped.id, wps);
                            proof {
                                assert(grid_route_of(*grid, og, dg, wps@));
                            }
                        },
                        Err(_) => {
                            failed.push(ped.id);
                            proof {
                                lemma_failed_extended(failed0, failed@, ped.id);
                                assert(pedestrians@[i as int] == ped);
                                srcs = srcs.push(i as int);
                            }
                        },
                    }
                } else {
                    failed.push(ped.id);
                    proof {
                        lemma_failed_extended(failed0, failed@, ped.id);
                        assert(pedestrians@[i as int] == ped);
                        srcs = srcs.push(i as int);
                    }
                }
            },
        }
        i = i + 1;
    }
    proof {
        lemma_srcs_to_report(pedestrians@, *grid, failed@, srcs);
    }
    (cache, failed)
}

/// A per-record table of witnessing agent indices establishes the failure
/// report's soundness.
proof fn lemma_srcs_to_report(
    peds: Seq<Pedestrian>,
    g: NavigableGrid,
    failed: Seq<u32>,
    srcs: Seq<int>,
)
    requires
        srcs.len() == failed.len(),
        forall|k: int|
            0 <= k < failed.len() ==> 0 <= #[trigger] srcs[k] < peds.len() && peds[srcs[k]].id
                == failed[k] && peds[srcs[k]].dest is Some && !route_request_ok(peds[srcs[k]], g),
    ensures
        failed_report_ok(peds, g, failed),
{
    assert forall|k: int| 0 <= k < failed.len() implies fails_for(peds, g, #[trigger] failed[k]) by {
        let j = srcs[k];
        assert(0 <= j < peds.len() && peds[j].id == failed[k] && peds[j].dest is Some
            && !route_request_ok(peds[j], g));
    }
}

/// Every traversable cell of the grid, in row-major order: the pool from
/// which agent starting positions and destinations can be drawn.
pub fn available_positions(grid: &NavigableGrid) -> (r: Vec<Num2D>)
    requires
        grid.wf(),
    ensures
        forall|k: int| 0 <= k < r@.len() ==> grid.free(#[trigger] r@[k]),
        forall|p: Num2D| grid.free(p) ==> r@.contains(p),
{
    let mut r: Vec<Num2D> = Vec::new();
    let mut y: usize = 0;
    while y < grid.height
        invariant
            grid.wf(),
            y <= grid.height,
            forall|k: int| 0 <= k < r@.len() ==> grid.free(#[trigger] r@[k]),
            forall|p: Num2D| grid.free(p) && p.y < y ==> r@.contains(p),
        decreases grid.height - y,
    {
        let mut x: usize = 0;
        while x < grid.width
            invariant
                grid.wf(),
                y < grid.height,
                x <= grid.width,
                forall|k: int| 0 <= k < r@.len() ==> grid.free(#[trigger] r@[k]),
                forall|p: Num2D| grid.free(p) && p.y < y ==> r@.contains(p),
                forall|p: Num2D| grid.free(p) && p.y == y && p.x < x ==> r@.contains(p),
            decreases grid.width - x,
        {
            let p = Num2D { x: x as i64, y: y as i64 };
            let ghost r0 = r@;
            if grid.is_traversable(p) {
                r.push(p);
                proof {
                    assert(r@[r0.len() as int] == p);
                    assert(r@.contains(p));
                    assert forall|q: Num2D| r0.contains(q) implies r@.contains(q) by {
                        lemma_contains_push(r0, p, q);
                    }
                }
            }
            proof {
                assert forall|q: Num2D| grid.free(q) && q.y == y && q.x < x + 1 implies
                    r@.contains(q) by {
                    if q.x == x {
                        assert(q == p);
                    } else if grid.free(p) {
                        lemma_contains_push(r0, p, q);
                    }
                }
                assert forall|q: Num2D| grid.free(q) && q.y < y implies r@.contains(q) by {
                    if grid.free(p) {
                        lemma_contains_push(r0, p, q);
                    }
                }
            }
            x = x + 1;
        }
        x = 0;
        y = y + 1;
    }
    r
}

/// Recording one more failed identifier keeps the earlier records and adds
/// the new one at the end.
proof fn lemma_failed_extended(s0: Seq<u32>, s1: Seq<u32>, id: u32)
    requires
        s1 == s0.push(id),
    ensures
        s1.contains(id),
        forall|x: u32| s0.contains(x) ==> s1.contains(x),
        s1.len() == s0.len() + 1,
        forall|k: int| 0 <= k < s0.len() ==> #[trigger] s1[k] == s0[k],
        s1[s0.len() as int] == id,
{
    assert(s1[s0.len() as int] == id);
    assert forall|x: u32| s0.contains(x) implies s1.contains(x) by {
        lemma_contains_push(s0, id, x);
    }
}

/// An element stays contained when the sequence grows at the end.
proof fn lemma_contains_push<A>(s: Seq<A>, e: A, x: A)
    requires
        s.contains(x),
    ensures
        s.push(e).contains(x),
{
    let k = choose|k: int| 0 <= k < s.len() && s[k] == x;
    assert(s.push(e)[k] == x);
}

/// If some entry carries `id`, a first such entry exists, and then the
/// remaining waypoints are not `None`.
proof fn lemma_first_occurrence(entries: Seq<PathEntry>, id: u32, k: int)
    requires
        0 <= k < entries.len(),
        entries[k].id == id,
    ensures
        remaining_in(entries, id) is Some,
    decreases k,
{
    if entries[0].id != id {
        let s = entries.skip(1);
        assert(s[k - 1] == entries[k]);
        lemma_first_occurrence(s, id, k - 1);
    }
}

} // verus!
