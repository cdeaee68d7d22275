use vstd::prelude::*;

use crate::flow_field::FlowField;
use crate::geometry::{in_world, tile_at, tile_of_position, Position, TileCoord, Velocity};
use crate::path::{build_path, descent, label_ceiling, waypoints_of};
use crate::steering::{
    decay, decayed, direct_chase_velocity, handle_enemy_movement_dumb, in_pursuit_range, point_fits, pursuit, pursuit_velocity, velocity_in_range,
    within_pursuit, MAX_TICK_MICROS, WAYPOINT_EPSILON,
};

verus! {

/// Default path recompute period: one second, in microseconds.
pub const PATH_REFRESH_MICROS: u64 = 1_000_000;

/// A repeating cooldown: `done` once `period` microseconds have accumulated since the last
/// restart.
#[derive(Clone, Copy, Debug, PartialEq, Eq, Structural)]
pub struct Timer {
    pub period: u64,
    pub elapsed: u64,
    pub done: bool,
}

impl Timer {
    /// A timer that has not yet run.
    pub fn new(period: u64) -> (t: Timer)
        ensures
            t == (Timer { period, elapsed: 0, done: false }),
    {
        Timer { period, elapsed: 0, done: false }
    }

    /// Advances the timer by `dt` microseconds (saturating).
    pub fn update(&mut self, dt: u64)
        ensures
            final(self).period == old(self).period,
            final(self).elapsed == if old(self).elapsed + dt > u64::MAX {
                u64::MAX as int
            } else {
                old(self).elapsed + dt
            },
            final(self).done == (final(self).elapsed >= final(self).period),
    {
        if dt > u64::MAX - self.elapsed {
            self.elapsed = u64::MAX;
        } else {
            self.elapsed = self.elapsed + dt;
        }
        self.done = self.elapsed >= self.period;
    }

    /// Starts the next period.
    pub fn restart(&mut self)
        ensures
            *final(self) == (Timer { period: old(self).period, elapsed: 0, done: false }),
    {
        self.elapsed = 0;
        self.done = false;
    }
}

/// Whether `pos` is within `WAYPOINT_EPSILON` of `p` on both axes.
pub open spec fn reached(pos: Position, p: Position) -> bool {
    -WAYPOINT_EPSILON < pos.x - p.x < WAYPOINT_EPSILON && -WAYPOINT_EPSILON < pos.y - p.y
        < WAYPOINT_EPSILON
}

/// An agent's cached route: waypoints, the index of the one it heads for, and the cooldown
/// that gates recomputing them.
pub struct Path {
    points: Vec<Position>,
    cursor: usize,
    timer: Timer,
}

impl Path {
    pub closed spec fn waypoints(&self) -> Seq<Position> {
        self.points@
    }

    pub closed spec fn next_index(&self) -> int {
        self.cursor as int
    }

    pub closed spec fn cooldown(&self) -> Timer {
        self.timer
    }

    pub open spec fn wf(&self) -> bool {
        &&& self.next_index() >= 0
        &&& self.waypoints().len() == 0 ==> self.next_index() == 0
        &&& self.waypoints().len() > 0 ==> self.next_index() < self.waypoints().len()
        &&& forall|i: int| 0 <= i < self.waypoints().len() ==> point_fits(#[trigger] self.waypoints()[i])
    }

    /// The waypoint the agent heads for, if any.
    pub open spec fn target(&self) -> Option<Position> {
        if self.next_index() < self.waypoints().len() {
            Some(self.waypoints()[self.next_index()])
        } else {
            None
        }
    }

    /// The cursor after the agent at `pos` checks its waypoint: it moves on when the current
    /// waypoint is reached and another follows.
    pub open spec fn advanced(&self, pos: Position) -> int {
        match self.target() {
            Some(p) => if reached(pos, p) && self.next_index() + 1 < self.waypoints().len() {
                self.next_index() + 1
            } else {
                self.next_index()
            },
            None => self.next_index(),
        }
    }

    /// No waypoints, and a fresh one-second cooldown.
    pub fn new() -> (p: Path)
        ensures
            p.wf(),
            p.waypoints() == Seq::<Position>::empty(),
            p.next_index() == 0,
            p.cooldown() == (Timer { period: PATH_REFRESH_MICROS, elapsed: 0, done: false }),
    {
        Path { points: Vec::new(), cursor: 0, timer: Timer::new(PATH_REFRESH_MICROS) }
    }

    /// The waypoints, for display.
    pub fn points(&self) -> (r: &Vec<Position>)
        ensures
            r@ == self.waypoints(),
    {
        &self.points
    }

    /// The index of the waypoint the agent heads for.
    pub fn cursor(&self) -> (r: usize)
        ensures
            r == self.next_index(),
    {
        self.cursor
    }

    /// The recompute cooldown.
    pub fn timer(&self) -> (r: Timer)
        ensures
            r == self.cooldown(),
    {
        self.timer
    }

    /// Advances the recompute cooldown by `dt` microseconds.
    pub fn update_timer(&mut self, dt: u64)
        requires
            old(self).wf(),
        ensures
            final(self).wf(),
            final(self).waypoints() == old(self).waypoints(),
            final(self).next_index() == old(self).next_index(),
            final(self).cooldown().period == old(self).cooldown().period,
            final(self).cooldown().elapsed == if old(self).cooldown().elapsed + dt > u64::MAX {
                u64::MAX as int
            } else {
                old(self).cooldown().elapsed + dt
            },
            final(self).cooldown().done == (final(self).cooldown().elapsed >= final(self).cooldown().period),
    {
        self.timer.update(dt);
    }

    /// The waypoint the agent heads for, if any.
    pub fn next_point(&self) -> (r: Option<Position>)
        requires
            self.wf(),
        ensures
            r == self.target(),
    {
        if self.cursor < self.points.len() {
            Some(self.points[self.cursor])
        } else {
            None
        }
    }

    /// Moves to the next waypoint when the current one is reached and another follows.
    pub fn advance_if_reached(&mut self, pos: Position)
        requires
            old(self).wf(),
        ensures
            final(self).wf(),
            final(self).waypoints() == old(self).waypoints(),
            final(self).cooldown() == old(self).cooldown(),
            final(self).next_index() == old(self).advanced(pos),
    {
        if self.cursor < self.points.len() {
            let p = self.points[self.cursor];
            let dx: i128 = pos.x as i128 - p.x as i128;
            let dy: i128 = pos.y as i128 - p.y as i128;
            let eps: i128 = WAYPOINT_EPSILON as i128;
            if -eps < dx && dx < eps && -eps < dy && dy < eps && self.cursor + 1 < self.points.len() {
                self.cursor = self.cursor + 1;
            }
        }
    }

    /// When the cooldown has run out, rebuilds the waypoints over `field` from the agent's tile
    /// to `goal_tile`, ending at `goal_pos`, and restarts the cooldown. Where no path exists the
    /// waypoints are kept. Returns whether new waypoints were set.
    pub fn rebuild(
        &mut self,
        field: &FlowField,
        agent_pos: Position,
        goal_tile: TileCoord,
        goal_pos: Position,
    ) -> (built: bool)
        requires
            old(self).wf(),
            in_world(agent_pos),
            point_fits(goal_pos),
        ensures
            final(self).wf(),
            !old(self).cooldown().done ==> *final(self) == *old(self) && !built,
            old(self).cooldown().done ==> {
                &&& final(self).cooldown() == (Timer {
                    period: old(self).cooldown().period,
                    elapsed: 0,
                    done: false,
                })
                &&& match descent(*field, tile_at(agent_pos), goal_tile, label_ceiling()) {
                    Some(tiles) => {
                        &&& built
                        &&& final(self).waypoints() == waypoints_of(tiles, goal_pos)
                        &&& final(self).next_index() == 0
                    },
                    None => {
                        &&& !built
                        &&& final(self).waypoints() == old(self).waypoints()
                        &&& final(self).next_index() == old(self).next_index()
                    },
                }
            },
    {
        if !self.timer.done {
            return false;
        }
        let start = tile_of_position(agent_pos);
        let found = build_path(field, start, goal_tile, goal_pos);
        self.timer.restart();
        match found {
            Some(points) => {
                proof {
                    let tiles = descent(*field, start, goal_tile, label_ceiling())->0;
                    assert forall|i: int| 0 <= i < points@.len() implies point_fits(#[trigger] points@[i]) by {
                        if i < tiles.len() {
                            assert(points@[i] == crate::geometry::origin_of(tiles[i]));
                        }
                    }
                }
                self.points = points;
                self.cursor = 0;
                true
            },
            None => false,
        }
    }
}

/// One tick of a path-following agent: within pursuit range, check the current waypoint, then
/// head for the (possibly new) one; at a waypoint exactly, leave the velocity as it is; with
/// no waypoints yet, decay.
/// Outside pursuit range the path is untouched and the velocity decays.
pub fn handle_enemy_path_movement(
    pos: Position,
    goal: Position,
    vel: &mut Velocity,
    path: &mut Path,
    aggro: i64,
    dt: u64,
)
    requires
        point_fits(pos),
        point_fits(goal),
        velocity_in_range(*old(vel)),
        old(path).wf(),
        aggro >= 0,
        dt <= MAX_TICK_MICROS,
    ensures
        final(path).wf(),
        within_pursuit(pos, goal, aggro as int) ==> {
            &&& final(path).waypoints() == old(path).waypoints()
            &&& final(path).cooldown() == old(path).cooldown()
            &&& final(path).next_index() == old(path).advanced(pos)
            &&& *final(vel) == match final(path).target() {
                Some(p) => if p != pos {
                    pursuit_velocity(pos, p, dt as int)
                } else {
                    *old(vel)
                },
                None => decayed(*old(vel), dt as int),
            }
        },
        !within_pursuit(pos, goal, aggro as int) ==> {
            &&& *final(path) == *old(path)
            &&& *final(vel) == decayed(*old(vel), dt as int)
        },
{
    if in_pursuit_range(pos, goal, aggro) {
        path.advance_if_reached(pos);
        match path.next_point() {
            Some(p) => {
                if p != pos {
                    *vel = pursuit(pos, p, dt);
                }
            },
            None => {
                *vel = decay(*vel, dt);
            },
        }
    } else {
        *vel = decay(*vel, dt);
    }
}

/// How an agent pursues the goal.
#[derive(Clone, Copy, Debug, PartialEq, Eq, Structural)]
pub enum PursuitStrategy {
    /// Straight at the goal.
    Direct,
    /// Along waypoints built over the flow field.
    PathFollowing,
}

/// One tick of steering for an agent of either strategy. A direct-chase agent heads straight
/// for the goal and leaves its path alone; a path-following agent steers along its path.
pub fn steer_enemy(
    strategy: PursuitStrategy,
    pos: Position,
    goal: Position,
    vel: &mut Velocity,
    path: &mut Path,
    aggro: i64,
    dt: u64,
)
    requires
        point_fits(pos),
        point_fits(goal),
        velocity_in_range(*old(vel)),
        old(path).wf(),
        aggro >= 0,
        dt <= MAX_TICK_MICROS,
    ensures
        final(path).wf(),
        strategy == PursuitStrategy::Direct ==> {
            &&& *final(path) == *old(path)
            &&& *final(vel) == direct_chase_velocity(pos, goal, *old(vel), aggro as int, dt as int)
        },
        strategy == PursuitStrategy::PathFollowing ==> within_pursuit(pos, goal, aggro as int) ==> {
            &&& final(path).waypoints() == old(path).waypoints()
            &&& final(path).cooldown() == old(path).cooldown()
            &&& final(path).next_index() == old(path).advanced(pos)
            &&& *final(vel) == match final(path).target() {
                Some(p) => if p != pos {
                    pursuit_velocity(pos, p, dt as int)
                } else {
                    *old(vel)
                },
                None => decayed(*old(vel), dt as int),
            }
        },
        strategy == PursuitStrategy::PathFollowing ==> !within_pursuit(pos, goal, aggro as int) ==> {
            &&& *final(path) == *old(path)
            &&& *final(vel) == decayed(*old(vel), dt as int)
        },
{
    match strategy {
        PursuitStrategy::Direct => {
            *vel = handle_enemy_movement_dumb(pos, goal, *vel, aggro, dt);
        },
        PursuitStrategy::PathFollowing => {
            handle_enemy_path_movement(pos, goal, vel, path, aggro, dt);
        },
    }
}

} // verus!
