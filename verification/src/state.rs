//! The shared simulation state the scheduler drives: the agent roster, the
//! obstacle grid, the per-agent path cache built once at construction, and
//! the tick counter.  The external scheduler calls `step_agent` once per
//! agent per tick, strictly sequentially, and uses each agent's stop
//! predicate to decide removal.

use vstd::prelude::*;

use crate::grid::NavigableGrid;
use crate::pedestrian::step_consumes;
use crate::pedestrian::step_spec;
use crate::pedestrian::Pedestrian;
use crate::state_components::failed_report_ok;
use crate::state_components::make_paths;
use crate::state_components::route_outcome;
use crate::state_components::PathCache;
use crate::utility_types::Num2D;

verus! {

pub struct ModelState {
    pub step: u64,
    pub peds: Vec<Pedestrian>,
    pub obj_grid: NavigableGrid,
    pub ped_paths: PathCache,
    pub failed_paths: Vec<u32>,
    pub num_agents: u32,
}

impl ModelState {
    /// A valid state: the grid and cache are well formed and so is every
    /// agent.
    pub open spec fn wf(self) -> bool {
        &&& self.obj_grid.wf()
        &&& self.ped_paths.wf()
        &&& forall|i: int| 0 <= i < self.peds@.len() ==> (#[trigger] self.peds@[i]).wf()
    }

    /// Builds the initial state: takes the navigable grid and the agent
    /// roster, precomputes one path per agent with a destination, and
    /// records which agents could not be routed.  Routing failures degrade
    /// those agents to direct steering; they never abort construction.
    pub fn new(obj_grid: NavigableGrid, peds: Vec<Pedestrian>) -> (r: ModelState)
        requires
            obj_grid.wf(),
            peds@.len() <= u32::MAX,
            forall|i: int| 0 <= i < peds@.len() ==> (#[trigger] peds@[i]).wf(),
            forall|i: int, j: int|
                0 <= i < j < peds@.len() ==> (#[trigger] peds@[i]).id != (#[trigger] peds@[j]).id,
        ensures
            r.wf(),
            r.step == 0,
            r.peds == peds,
            r.obj_grid == obj_grid,
            r.num_agents == peds@.len(),
            forall|i: int|
                0 <= i < peds@.len() ==> route_outcome(#[trigger] peds@[i], obj_grid, r.ped_paths),
            forall|id: u32|
                (forall|i: int| 0 <= i < peds@.len() ==> (#[trigger] peds@[i]).id != id)
                    ==> r.ped_paths.remaining(id) is None,
            failed_report_ok(peds@, obj_grid, r.failed_paths@),
    {
        let num_agents = peds.len() as u32;
        let (ped_paths, failed_paths) = make_paths(&peds, &obj_grid);
        ModelState { step: 0, peds, obj_grid, ped_paths, failed_paths, num_agents }
    }

    /// Uniform obstacle query: true exactly when the cell lies on the grid
    /// and an obstacle blocks it.
    pub fn get_obstacle(&self, loc: Num2D) -> (r: bool)
        requires
            self.wf(),
        ensures
            r == (self.obj_grid.in_bounds(loc) && !self.obj_grid.free(loc)),
    {
        let inside = 0 <= loc.x && loc.x < self.obj_grid.width as i64 && 0 <= loc.y && loc.y
            < self.obj_grid.height as i64;
        inside && !self.obj_grid.is_traversable(loc)
    }

    /// The per-agent, per-tick entry point the scheduler calls: advances
    /// agent `i` by one tick against the shared path cache, exactly as the
    /// agent's own step rule lays down.
    pub fn step_agent(&mut self, i: usize)
        requires
            old(self).wf(),
            i < old(self).peds@.len(),
        ensures
            final(self).wf(),
            final(self).peds@.len() == old(self).peds@.len(),
            final(self).peds@[i as int] == step_spec(
                old(self).peds@[i as int],
                old(self).ped_paths.front_of(old(self).peds@[i as int].id),
                old(self).ped_paths.next_of(old(self).peds@[i as int].id),
            ),
            forall|j: int|
                0 <= j < old(self).peds@.len() && j != i ==> final(self).peds@[j] == old(
                    self,
                ).peds@[j],
            !step_consumes(
                old(self).peds@[i as int],
                old(self).ped_paths.front_of(old(self).peds@[i as int].id),
            ) ==> final(self).ped_paths == old(self).ped_paths,
            forall|id2: u32|
                id2 != old(self).peds@[i as int].id ==> final(self).ped_paths.remaining(id2) == old(
                    self,
                ).ped_paths.remaining(id2),
            final(self).step == old(self).step,
            final(self).obj_grid == old(self).obj_grid,
            final(self).failed_paths == old(self).failed_paths,
            final(self).num_agents == old(self).num_agents,
    {
        let mut p = self.peds[i];
        p.step(&mut self.ped_paths);
        self.peds.set(i, p);
    }

    /// Whether agent `i` has reached its goal and may leave the schedule.
    pub fn agent_stopped(&self, i: usize) -> (r: bool)
        requires
            self.wf(),
            i < self.peds@.len(),
        ensures
            r == (self.peds@[i as int].dest matches Some(t)
                && crate::pedestrian::within_tolerance(self.peds@[i as int].loc, t)),
    {
        self.peds[i].is_stopped()
    }

    /// Advances the tick counter after a whole scheduling round.
    pub fn after_step(&mut self)
        requires
            old(self).step < u64::MAX,
        ensures
            final(self).step == old(self).step + 1,
            final(self).peds == old(self).peds,
            final(self).obj_grid == old(self).obj_grid,
            final(self).ped_paths == old(self).ped_paths,
            final(self).failed_paths == old(self).failed_paths,
            final(self).num_agents == old(self).num_agents,
            final(self).wf() == old(self).wf(),
    {
        self.step = self.step + 1;
    }

    /// Rewinds the tick counter, as a simulation reset does.
    pub fn reset(&mut self)
        ensures
            final(self).step == 0,
            final(self).peds == old(self).peds,
            final(self).obj_grid == old(self).obj_grid,
            final(self).ped_paths == old(self).ped_paths,
            final(self).failed_paths == old(self).failed_paths,
            final(self).num_agents == old(self).num_agents,
            final(self).wf() == old(self).wf(),
    {
        self.step = 0;
    }
}

} // verus!
