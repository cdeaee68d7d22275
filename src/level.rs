use vstd::prelude::*;

use crate::collision::CollisionSet;
use crate::flow_field::{FlowField, MAX_FIELD_TILES};
use crate::geometry::{in_world, tile_at, update_player_trunc_pos, Position, TileCoord};

verus! {

/// A loaded level's pathfinding state: its walkable tiles, its collision set, and the flow
/// field toward the goal.
pub struct Level {
    walkable: Vec<TileCoord>,
    collision: CollisionSet,
    field: FlowField,
}

impl Level {
    pub closed spec fn walk(&self) -> Set<TileCoord> {
        self.walkable@.to_set()
    }

    pub closed spec fn blocked(&self) -> Set<TileCoord> {
        self.collision@
    }

    pub closed spec fn field(&self) -> FlowField {
        self.field
    }

    pub closed spec fn wf(&self) -> bool {
        &&& self.collision.wf()
        &&& self.walkable@.len() + self.collision.tile_count() <= MAX_FIELD_TILES
    }

    /// A level with the given walkable and blocked tiles, its field reset: `0` on every walkable
    /// tile, `-1` on every blocked one.
    pub fn new(walkable: Vec<TileCoord>, collision: &Vec<TileCoord>) -> (l: Level)
        requires
            walkable@.len() + collision@.len() <= MAX_FIELD_TILES,
        ensures
            l.wf(),
            l.walk() == walkable@.to_set(),
            l.blocked() == collision@.to_set(),
            l.field().is_reset(l.walk(), l.blocked()),
    {
        let set = CollisionSet::from_tiles(collision);
        proof {
            set.lemma_view_finite();
            collision@.lemma_cardinality_of_set();
        }
        let mut field = FlowField::new();
        field.reset_flow_field(&walkable, &set);
        Level { walkable, collision: set, field }
    }

    /// The flow field.
    pub fn flow_field(&self) -> (r: &FlowField)
        ensures
            *r == self.field(),
    {
        &self.field
    }

    /// The collision set.
    pub fn collision(&self) -> (r: &CollisionSet)
        requires
            self.wf(),
        ensures
            r.wf(),
            r@ == self.blocked(),
    {
        &self.collision
    }

    /// Discards the field's labels: `0` on every walkable tile, `-1` on every blocked one.
    pub fn reset_flow_field(&mut self)
        requires
            old(self).wf(),
        ensures
            final(self).wf(),
            final(self).walk() == old(self).walk(),
            final(self).blocked() == old(self).blocked(),
            final(self).field().is_reset(final(self).walk(), final(self).blocked()),
    {
        self.field.reset_flow_field(&self.walkable, &self.collision);
    }

    /// Rebuilds the field for `goal`.
    pub fn propagate_pathfinding_wave(&mut self, goal: TileCoord)
        requires
            old(self).wf(),
        ensures
            final(self).wf(),
            final(self).walk() == old(self).walk(),
            final(self).blocked() == old(self).blocked(),
            final(self).field().is_flow_field(final(self).walk(), final(self).blocked(), goal),
    {
        self.field.propagate_pathfinding_wave(&self.walkable, &self.collision, goal);
    }

    /// Tracks the goal: when the tile under `goal_pos` differs from `goal_tile`, records the new
    /// tile and rebuilds the field for it; otherwise changes nothing. Returns whether it
    /// rebuilt.
    pub fn follow_goal(&mut self, goal_tile: &mut TileCoord, goal_pos: Position) -> (rebuilt: bool)
        requires
            old(self).wf(),
            in_world(goal_pos),
        ensures
            final(self).wf(),
            final(self).walk() == old(self).walk(),
            final(self).blocked() == old(self).blocked(),
            *final(goal_tile) == tile_at(goal_pos),
            rebuilt == (*old(goal_tile) != tile_at(goal_pos)),
            rebuilt ==> final(self).field().is_flow_field(
                final(self).walk(),
                final(self).blocked(),
                tile_at(goal_pos),
            ),
            !rebuilt ==> final(self).field() == old(self).field(),
    {
        let changed = update_player_trunc_pos(goal_tile, goal_pos);
        if changed {
            self.propagate_pathfinding_wave(*goal_tile);
        }
        changed
    }
}

} // verus!
