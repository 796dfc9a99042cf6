//! The per-tick agent movement controller.
//!
//! Each agent is in one of three conceptual states.  Unrouted (no cached
//! waypoint left): it integrates its position along a direction vector —
//! recomputed toward its destination when it has one, its fixed wander
//! vector otherwise.  Following (a cached waypoint is available): it steers
//! toward the current waypoint, consuming it once reached to within one
//! cell's tolerance; an exhausted cache falls back to direct steering toward
//! the original destination.  Arrived (within tolerance of the destination):
//! terminal, the agent stops moving and reports itself as stoppable.

use vstd::prelude::*;

use vstd::math::abs;

use crate::calc_utils::div_toward_zero;
use crate::calc_utils::motion_vector_spec;
use crate::calc_utils::normalize_motion_vector;
use crate::calc_utils::MAX_SIM_COORD;
use crate::state_components::sim_in_range;
use crate::state_components::PathCache;
use crate::utility_types::Sim2D;
use crate::utility_types::CELL_SCALE;

verus! {

/// Largest speed an agent may have, in simulation sub-units per tick.
pub const MAX_SPEED: i64 = 1_000_000;

/// Two simulation points within one grid cell of each other on both axes.
pub open spec fn within_tolerance(a: Sim2D, b: Sim2D) -> bool {
    abs(a.x - b.x) < CELL_SCALE && abs(a.y - b.y) < CELL_SCALE
}

/// A coordinate forced back onto the simulation plane.
pub open spec fn clamp_coord(v: int) -> int {
    if v < -MAX_SIM_COORD {
        -MAX_SIM_COORD as int
    } else if v > MAX_SIM_COORD {
        MAX_SIM_COORD as int
    } else {
        v
    }
}

/// One tick of motion: the position advanced by the direction vector times
/// the speed, at fixed-point scale, kept on the simulation plane.
pub open spec fn advanced_by(loc: Sim2D, dir_x: int, dir_y: int, speed: int) -> Sim2D {
    Sim2D {
        x: clamp_coord(loc.x + div_toward_zero(dir_x * speed, CELL_SCALE as int)) as i64,
        y: clamp_coord(loc.y + div_toward_zero(dir_y * speed, CELL_SCALE as int)) as i64,
    }
}

/// A point agent: its position and optional destination live in simulation
/// space, its direction vector is fixed point with `CELL_SCALE` standing
/// for one, and its speed is in simulation sub-units per tick.
#[derive(Clone, Copy, Debug, PartialEq, Eq, Structural)]
pub struct Pedestrian {
    pub id: u32,
    pub loc: Sim2D,
    pub last_d: Sim2D,
    pub dest: Option<Sim2D>,
    pub dir_x: i64,
    pub dir_y: i64,
    pub speed: i64,
    pub arrived: bool,
}

impl Pedestrian {
    /// Positions on the simulation plane, a direction vector of at most
    /// unit length, and a bounded non-negative speed.
    pub open spec fn wf(self) -> bool {
        &&& sim_in_range(self.loc)
        &&& sim_in_range(self.last_d)
        &&& (self.dest matches Some(t) ==> sim_in_range(t))
        &&& -CELL_SCALE <= self.dir_x <= CELL_SCALE
        &&& -CELL_SCALE <= self.dir_y <= CELL_SCALE
        &&& 0 <= self.speed <= MAX_SPEED
    }

    /// A new agent facing its destination, or facing nowhere without one.
    pub fn new(id: u32, loc: Sim2D, last_d: Sim2D, dest: Option<Sim2D>, speed: i64) -> (r:
        Pedestrian)
        requires
            sim_in_range(loc),
            sim_in_range(last_d),
            dest matches Some(t) ==> sim_in_range(t),
            0 <= speed <= MAX_SPEED,
        ensures
            r.wf(),
            r.id == id,
            r.loc == loc,
            r.last_d == last_d,
            r.dest == dest,
            r.speed == speed,
            !r.arrived,
            match dest {
                Some(t) => (r.dir_x as int, r.dir_y as int) == motion_vector_spec(loc, t),
                None => r.dir_x == 0 && r.dir_y == 0,
            },
    {
        let dir_x: i64;
        let dir_y: i64;
        match dest {
            Some(t) => {
                let d = normalize_motion_vector(loc, t);
                dir_x = d.0;
                dir_y = d.1;
            },
            None => {
                dir_x = 0;
                dir_y = 0;
            },
        }
        Pedestrian { id, loc, last_d, dest, dir_x, dir_y, speed, arrived: false }
    }

    /// The scheduler's removal predicate: the agent has a destination and
    /// stands within one cell of it on both axes.  An agent without a
    /// destination never stops.
    pub fn is_stopped(&self) -> (r: bool)
        requires
            self.wf(),
        ensures
            r == (self.dest matches Some(t) && within_tolerance(self.loc, t)),
    {
        match self.dest {
            Some(t) => {
                let dx: bool = self.loc.x < t.x + CELL_SCALE && t.x < self.loc.x + CELL_SCALE;
                let dy: bool = self.loc.y < t.y + CELL_SCALE && t.y < self.loc.y + CELL_SCALE;
                dx && dy
            },
            None => false,
        }
    }

    /// Steers toward `target`: the direction vector becomes the normalized
    /// difference vector and the position advances by it, scaled by speed.
    fn steer_toward(&mut self, target: Sim2D)
        requires
            old(self).wf(),
            sim_in_range(target),
        ensures
            final(self).wf(),
            (final(self).dir_x as int, final(self).dir_y as int) == motion_vector_spec(
                old(self).loc,
                target,
            ),
            final(self).loc == advanced_by(
                old(self).loc,
                final(self).dir_x as int,
                final(self).dir_y as int,
                old(self).speed as int,
            ),
            final(self).id == old(self).id,
            final(self).last_d == old(self).last_d,
            final(self).dest == old(self).dest,
            final(self).speed == old(self).speed,
            final(self).arrived == old(self).arrived,
    {
        let d = normalize_motion_vector(self.loc, target);
        self.dir_x = d.0;
        self.dir_y = d.1;
        self.integrate();
    }

    /// Advances the position along the current direction vector by one
    /// tick's worth of speed.
    fn integrate(&mut self)
        requires
            old(self).wf(),
        ensures
            final(self).wf(),
            final(self).loc == advanced_by(
                old(self).loc,
                old(self).dir_x as int,
                old(self).dir_y as int,
                old(self).speed as int,
            ),
            final(self).id == old(self).id,
            final(self).last_d == old(self).last_d,
            final(self).dest == old(self).dest,
            final(self).speed == old(self).speed,
            final(self).arrived == old(self).arrived,
            final(self).dir_x == old(self).dir_x,
            final(self).dir_y == old(self).dir_y,
    {
        let sx: i64 = scaled_step(self.dir_x, self.speed);
        let sy: i64 = scaled_step(self.dir_y, self.speed);
        self.loc = Sim2D { x: clamp(self.loc.x + sx), y: clamp(self.loc.y + sy) };
    }
}

/// Steering toward a target: the direction vector becomes the normalized
/// difference vector and the position advances by it, scaled by speed.
pub open spec fn steer_spec(p: Pedestrian, t: Sim2D) -> Pedestrian {
    let d = motion_vector_spec(p.loc, t);
    Pedestrian {
        dir_x: d.0 as i64,
        dir_y: d.1 as i64,
        loc: advanced_by(p.loc, d.0, d.1, p.speed as int),
        ..p
    }
}

/// Behaviour when no cached waypoint is available: arrival once within
/// tolerance of the destination, direct steering toward it otherwise, or
/// wandering along the current direction vector with no destination at all.
pub open spec fn fallback_spec(p: Pedestrian) -> Pedestrian {
    match p.dest {
        Some(t) => if within_tolerance(p.loc, t) {
            Pedestrian { arrived: true, ..p }
        } else {
            steer_spec(p, t)
        },
        None => Pedestrian {
            loc: advanced_by(p.loc, p.dir_x as int, p.dir_y as int, p.speed as int),
            ..p
        },
    }
}

/// The full per-tick transition, given the agent's current and following
/// cached waypoints: steer toward the current waypoint, consume it once
/// reached and steer toward the next, fall back to direct steering past the
/// end of the cache; an arrived agent is left alone.
pub open spec fn step_spec(p: Pedestrian, front: Option<Sim2D>, next: Option<Sim2D>) -> Pedestrian {
    if p.arrived {
        p
    } else {
        match front {
            Some(wp) => if !within_tolerance(p.loc, wp) {
                steer_spec(p, wp)
            } else {
                match next {
                    Some(wp2) => steer_spec(p, wp2),
                    None => fallback_spec(p),
                }
            },
            None => fallback_spec(p),
        }
    }
}

/// Whether the tick consumes the agent's current cached waypoint.
pub open spec fn step_consumes(p: Pedestrian, front: Option<Sim2D>) -> bool {
    !p.arrived && (front matches Some(wp) && within_tolerance(p.loc, wp))
}

impl Pedestrian {
    /// One simulation tick: advances this agent along its cached path, or
    /// by its fallback steering rule, as `step_spec` lays down, consuming at
    /// most the one waypoint it has reached.  The position never jumps: each
    /// coordinate moves by at most `speed` per tick, also across the moment
    /// the cache runs out.
    pub fn step(&mut self, paths: &mut PathCache)
        requires
            old(self).wf(),
            old(paths).wf(),
        ensures
            final(self).wf(),
            final(paths).wf(),
            *final(self) == step_spec(
                *old(self),
                old(paths).front_of(old(self).id),
                old(paths).next_of(old(self).id),
            ),
            step_consumes(*old(self), old(paths).front_of(old(self).id)) ==> {
                &&& (old(paths).remaining(old(self).id) matches Some(s) && final(paths).remaining(
                    old(self).id,
                ) == Some(s.skip(1)))
                &&& forall|id2: u32|
                    id2 != old(self).id ==> final(paths).remaining(id2) == old(paths).remaining(
                        id2,
                    )
            },
            !step_consumes(*old(self), old(paths).front_of(old(self).id)) ==> *final(paths)
                == *old(paths),
            -old(self).speed <= final(self).loc.x - old(self).loc.x <= old(self).speed,
            -old(self).speed <= final(self).loc.y - old(self).loc.y <= old(self).speed,
    {
        proof {
            old(paths).lemma_remaining_in_range(old(self).id);
            lemma_step_continuity(*old(self));
        }
        if self.arrived {
            return ;
        }
        match paths.front(self.id) {
            Some(wp) => {
                if near(self.loc, wp) {
                    paths.advance(self.id);
                    match paths.front(self.id) {
                        Some(wp2) => {
                            self.steer_toward(wp2);
                        },
                        None => {
                            self.fall_back();
                        },
                    }
                } else {
                    self.steer_toward(wp);
                }
            },
            None => {
                self.fall_back();
            },
        }
    }

    /// The fallback move: arrive, steer at the destination, or wander.
    fn fall_back(&mut self)
        requires
            old(self).wf(),
        ensures
            final(self).wf(),
            *final(self) == fallback_spec(*old(self)),
    {
        match self.dest {
            Some(t) => {
                if near(self.loc, t) {
                    self.arrived = true;
                } else {
                    self.steer_toward(t);
                }
            },
            None => {
                self.integrate();
            },
        }
    }
}

/// Every transition of one tick moves each coordinate by at most the speed:
/// steering and wandering advance by a clamped sub-speed displacement, and
/// arrival does not move at all.
proof fn lemma_step_continuity(p: Pedestrian)
    requires
        p.wf(),
    ensures
        forall|front: Option<Sim2D>, next: Option<Sim2D>|
            sim_ok(front) && sim_ok(next) ==> one_tick_close(
                p,
                #[trigger] step_spec(p, front, next),
            ),
{
    assert forall|front: Option<Sim2D>, next: Option<Sim2D>|
        sim_ok(front) && sim_ok(next) implies one_tick_close(
        p,
        #[trigger] step_spec(p, front, next),
    ) by {
        lemma_advanced_close(p.loc, p.dir_x as int, p.dir_y as int, p.speed as int);
        match front {
            Some(wp) => {
                let d = motion_vector_spec(p.loc, wp);
                crate::calc_utils::lemma_motion_vector_bounded(p.loc, wp);
                lemma_advanced_close(p.loc, d.0, d.1, p.speed as int);
            },
            None => {},
        }
        match next {
            Some(wp2) => {
                let d = motion_vector_spec(p.loc, wp2);
                crate::calc_utils::lemma_motion_vector_bounded(p.loc, wp2);
                lemma_advanced_close(p.loc, d.0, d.1, p.speed as int);
            },
            None => {},
        }
        match p.dest {
            Some(t) => {
                let d = motion_vector_spec(p.loc, t);
                crate::calc_utils::lemma_motion_vector_bounded(p.loc, t);
                lemma_advanced_close(p.loc, d.0, d.1, p.speed as int);
            },
            None => {},
        }
    }
}

/// An optional waypoint that lies on the simulation plane.
pub open spec fn sim_ok(w: Option<Sim2D>) -> bool {
    w matches Some(p) ==> sim_in_range(p)
}

/// The new position is within one tick's speed of the old one on each axis.
pub open spec fn one_tick_close(p: Pedestrian, q: Pedestrian) -> bool {
    -p.speed <= q.loc.x - p.loc.x <= p.speed && -p.speed <= q.loc.y - p.loc.y <= p.speed
}

/// Advancing a position that lies on the simulation plane moves each
/// coordinate by at most the speed, the clamping included.
proof fn lemma_advanced_close(loc: Sim2D, dir_x: int, dir_y: int, speed: int)
    requires
        sim_in_range(loc),
        -CELL_SCALE <= dir_x <= CELL_SCALE,
        -CELL_SCALE <= dir_y <= CELL_SCALE,
        0 <= speed <= MAX_SPEED,
    ensures
        -speed <= advanced_by(loc, dir_x, dir_y, speed).x - loc.x <= speed,
        -speed <= advanced_by(loc, dir_x, dir_y, speed).y - loc.y <= speed,
{
    lemma_scaled_step_bounded(dir_x, speed);
    lemma_scaled_step_bounded(dir_y, speed);
}

/// Whether two simulation points are within one cell of each other on both
/// axes.
fn near(a: Sim2D, b: Sim2D) -> (r: bool)
    requires
        sim_in_range(a),
        sim_in_range(b),
    ensures
        r == within_tolerance(a, b),
{
    a.x < b.x + CELL_SCALE && b.x < a.x + CELL_SCALE && a.y < b.y + CELL_SCALE && b.y < a.y
        + CELL_SCALE
}

/// One tick's displacement along one axis: the fixed-point direction
/// component times the speed, rescaled to sub-units.  Never exceeds the
/// speed in magnitude.
fn scaled_step(dir: i64, speed: i64) -> (r: i64)
    requires
        -CELL_SCALE <= dir <= CELL_SCALE,
        0 <= speed <= MAX_SPEED,
    ensures
        r == div_toward_zero(dir * speed, CELL_SCALE as int),
        -speed <= r <= speed,
{
    proof {
        lemma_scaled_step_bounded(dir as int, speed as int);
        assert((-dir) * speed == -(dir * speed)) by (nonlinear_arith);
        assert(0 <= dir * speed <= 1_000_000_000 || 0 <= (-dir) * speed <= 1_000_000_000)
            by (nonlinear_arith)
            requires
                -1000 <= dir <= 1000,
                0 <= speed <= 1_000_000,
        ;
        assert(-1_000_000_000 <= dir * speed <= 1_000_000_000) by (nonlinear_arith)
            requires
                -1000 <= dir <= 1000,
                0 <= speed <= 1_000_000,
        ;
    }
    if dir >= 0 {
        (dir * speed) / CELL_SCALE
    } else {
        -((-dir * speed) / CELL_SCALE)
    }
}

/// The one-tick displacement is bounded by the speed, because the direction
/// component is at most one in fixed point.
proof fn lemma_scaled_step_bounded(dir: int, speed: int)
    requires
        -CELL_SCALE <= dir <= CELL_SCALE,
        0 <= speed <= MAX_SPEED,
    ensures
        -speed <= div_toward_zero(dir * speed, CELL_SCALE as int) <= speed,
{
    let s = CELL_SCALE as int;
    assert((-dir) * speed == -(dir * speed)) by (nonlinear_arith);
    if dir >= 0 {
        assert(dir * speed <= s * speed) by (nonlinear_arith)
            requires
                0 <= dir <= s,
                0 <= speed,
        ;
        assert(dir * speed >= 0) by (nonlinear_arith)
            requires
                0 <= dir,
                0 <= speed,
        ;
        vstd::arithmetic::div_mod::lemma_div_is_ordered(dir * speed, s * speed, s);
        vstd::arithmetic::div_mod::lemma_div_multiples_vanish(speed, s);
        vstd::arithmetic::div_mod::lemma_div_pos_is_pos(dir * speed, s);
    } else {
        assert((-dir) * speed <= s * speed) by (nonlinear_arith)
            requires
                0 <= -dir <= s,
                0 <= speed,
        ;
        assert((-dir) * speed >= 0) by (nonlinear_arith)
            requires
                0 <= -dir,
                0 <= speed,
        ;
        vstd::arithmetic::div_mod::lemma_div_is_ordered((-dir) * speed, s * speed, s);
        vstd::arithmetic::div_mod::lemma_div_multiples_vanish(speed, s);
        vstd::arithmetic::div_mod::lemma_div_pos_is_pos((-dir) * speed, s);
    }
}

/// A coordinate forced back onto the simulation plane.
fn clamp(v: i64) -> (r: i64)
    requires
        -MAX_SIM_COORD - MAX_SPEED <= v <= MAX_SIM_COORD + MAX_SPEED,
    ensures
        r == clamp_coord(v as int),
{
    if v < -MAX_SIM_COORD {
        -MAX_SIM_COORD
    } else if v > MAX_SIM_COORD {
        MAX_SIM_COORD
    } else {
        v
    }
}

} // verus!
