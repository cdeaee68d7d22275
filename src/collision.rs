use vstd::prelude::*;
use std::collections::HashSet;

use crate::geometry::{
    coord_in_world, floor_tile, in_world, key_of, lemma_key_of_injective, tile_key, tile_of,
    Position, TileCoord, Velocity, UNITS_PER_TILE,
};

verus! {

broadcast use vstd::std_specs::hash::group_hash_axioms;

/// The set of impassable tiles of a level.
pub struct CollisionSet {
    tiles: Vec<TileCoord>,
    lookup: HashSet<u64>,
}

impl View for CollisionSet {
    type V = Set<TileCoord>;

    closed spec fn view(&self) -> Set<TileCoord> {
        self.tiles@.to_set()
    }
}

impl CollisionSet {
    pub closed spec fn wf(&self) -> bool {
        &&& forall|c: TileCoord| #[trigger]
            self.lookup@.contains(key_of(c)) <==> self.tiles@.contains(c)
        &&& self.tiles@.no_duplicates()
    }

    pub proof fn lemma_view_finite(&self)
        requires
            self.wf(),
        ensures
            self@.finite(),
            self@.len() == self.tile_count(),
    {
        self.tiles@.unique_seq_to_set();
    }

    /// How many tiles the set holds.
    pub closed spec fn tile_count(&self) -> nat {
        self.tiles@.len()
    }

    /// An empty set.
    pub fn new() -> (s: CollisionSet)
        ensures
            s.wf(),
            s@ == Set::<TileCoord>::empty(),
            s.tile_count() == 0,
    {
        let s = CollisionSet { tiles: Vec::new(), lookup: HashSet::new() };
        assert(s@ =~= Set::<TileCoord>::empty());
        s
    }

    /// Marks a tile as impassable.
    pub fn insert(&mut self, c: TileCoord)
        requires
            old(self).wf(),
        ensures
            final(self).wf(),
            final(self)@ == old(self)@.insert(c),
            final(self).tile_count() == old(self).tile_count() + (if old(self)@.contains(c) {
                0int
            } else {
                1int
            }),
    {
        let k = tile_key(c);
        if !self.lookup.contains(&k) {
            self.lookup.insert(k);
            let ghost old_tiles = self.tiles@;
            self.tiles.push(c);
            assert(self.tiles@[old_tiles.len() as int] == c);
            assert forall|t: TileCoord| #[trigger]
                self.lookup@.contains(key_of(t)) <==> self.tiles@.contains(t) by {
                lemma_key_of_injective(t, c);
                if self.tiles@.contains(t) && t != c {
                    let i = choose|i: int| 0 <= i < self.tiles@.len() && self.tiles@[i] == t;
                    assert(old_tiles[i] == t);
                    assert(old_tiles.contains(t));
                }
                if old_tiles.contains(t) {
                    let i = choose|i: int| 0 <= i < old_tiles.len() && old_tiles[i] == t;
                    assert(self.tiles@[i] == t);
                }
            }
            assert forall|t: TileCoord| self@.contains(t) <==> old_tiles.to_set().insert(c).contains(t) by {
                if old_tiles.contains(t) {
                    let i = choose|i: int| 0 <= i < old_tiles.len() && old_tiles[i] == t;
                    assert(self.tiles@[i] == t);
                }
                if self.tiles@.contains(t) && t != c {
                    let i = choose|i: int| 0 <= i < self.tiles@.len() && self.tiles@[i] == t;
                    assert(old_tiles[i] == t);
                }
            }
            assert(self@ =~= old_tiles.to_set().insert(c));
        }
    }

    /// Whether a tile is impassable.
    pub fn contains(&self, c: TileCoord) -> (r: bool)
        requires
            self.wf(),
        ensures
            r == self@.contains(c),
    {
        let k = tile_key(c);
        self.lookup.contains(&k)
    }

    /// A set holding exactly the given tiles.
    pub fn from_tiles(tiles: &Vec<TileCoord>) -> (s: CollisionSet)
        ensures
            s.wf(),
            s@ == tiles@.to_set(),
    {
        let mut s = CollisionSet::new();
        let mut i: usize = 0;
        while i < tiles.len()
            invariant
                i <= tiles.len(),
                s.wf(),
                s@ == tiles@.subrange(0, i as int).to_set(),
            decreases tiles.len() - i,
        {
            s.insert(tiles[i]);
            proof {
                assert(tiles@.subrange(0, i + 1) == tiles@.subrange(0, i as int).push(tiles@[i as int]));
                let a = tiles@.subrange(0, i as int);
                let b = tiles@.subrange(0, i + 1);
                assert forall|t: TileCoord| b.to_set().contains(t) <==> a.to_set().insert(
                    tiles@[i as int],
                ).contains(t) by {
                    if a.contains(t) {
                        let j = choose|j: int| 0 <= j < a.len() && a[j] == t;
                        assert(b[j] == t);
                    }
                    if b.contains(t) && t != tiles@[i as int] {
                        let j = choose|j: int| 0 <= j < b.len() && b[j] == t;
                        assert(a[j] == t);
                    }
                    assert(b[i as int] == tiles@[i as int]);
                }
                assert(b.to_set() =~= a.to_set().insert(tiles@[i as int]));
            }
            i = i + 1;
        }
        assert(tiles@.subrange(0, tiles.len() as int) == tiles@);
        s
    }

    /// The impassable tiles, each once.
    pub fn tiles(&self) -> (r: &Vec<TileCoord>)
        requires
            self.wf(),
        ensures
            r@.to_set() == self@,
            r@.len() == self.tile_count(),
    {
        &self.tiles
    }
}

/// Inset of an entity's footprint from its tile square (a tenth of a tile), so that touching
/// edges do not collide.
pub const COLLISION_BORDER: i64 = 100_000;

/// Whether the tile holding continuous point `(x, y)` is blocked.
pub open spec fn blocked_at(blocked: Set<TileCoord>, x: int, y: int) -> bool {
    blocked.contains(TileCoord { x: tile_of(x) as i32, y: tile_of(y) as i32 })
}

/// Horizontal pass: the new `x` and `x` velocity. Moving left (or not moving) probes the left
/// edge of the moved footprint at its top and bottom rows, and on a hit snaps to the boundary
/// just right of the obstruction; moving right probes the right edge and snaps left of it.
/// Rows come from the position before the move.
pub open spec fn settle_x(blocked: Set<TileCoord>, pos: Position, vel: Velocity) -> (int, int) {
    let u = UNITS_PER_TILE as int;
    let b = COLLISION_BORDER as int;
    let cx = pos.x + vel.x;
    let top = pos.y + b;
    let bottom = pos.y + u - b;
    if vel.x <= 0 {
        if blocked_at(blocked, cx + b, top) || blocked_at(blocked, cx + b, bottom) {
            ((tile_of(cx) + 1) * u, 0)
        } else {
            (cx, vel.x as int)
        }
    } else {
        if blocked_at(blocked, cx + u - b, top) || blocked_at(blocked, cx + u - b, bottom) {
            (tile_of(cx) * u, 0)
        } else {
            (cx, vel.x as int)
        }
    }
}

/// Vertical pass, made after the horizontal one from column `x`: the new `y` and `y`
/// velocity. Moving up (or not moving) probes the top edge at the footprint's left and right
/// columns; moving down probes the bottom edge.
pub open spec fn settle_y(blocked: Set<TileCoord>, x: int, pos: Position, vel: Velocity) -> (
    int,
    int,
) {
    let u = UNITS_PER_TILE as int;
    let b = COLLISION_BORDER as int;
    let cy = pos.y + vel.y;
    let left = x + b;
    let right = x + u - b;
    if vel.y <= 0 {
        if blocked_at(blocked, left, cy + b) || blocked_at(blocked, right, cy + b) {
            ((tile_of(cy) + 1) * u, 0)
        } else {
            (cy, vel.y as int)
        }
    } else {
        if blocked_at(blocked, left, cy + u - b) || blocked_at(blocked, right, cy + u - b) {
            (tile_of(cy) * u, 0)
        } else {
            (cy, vel.y as int)
        }
    }
}

/// Both the position and the moved position lie in the world.
pub open spec fn move_in_world(pos: Position, vel: Velocity) -> bool {
    in_world(pos) && coord_in_world(pos.x + vel.x) && coord_in_world(pos.y + vel.y)
}

/// Moves an entity by its velocity for one tick and resolves overlap with blocked tiles, one
/// axis after the other: first `x` (`settle_x`), then `y` (`settle_y`) from the new column.
pub fn handle_collision(pos: &mut Position, vel: &mut Velocity, collision: &CollisionSet)
    requires
        collision.wf(),
        move_in_world(*old(pos), *old(vel)),
    ensures
        (final(pos).x as int, final(vel).x as int) == settle_x(collision@, *old(pos), *old(vel)),
        (final(pos).y as int, final(vel).y as int) == settle_y(
            collision@,
            final(pos).x as int,
            *old(pos),
            *old(vel),
        ),
{
    let u = UNITS_PER_TILE;
    let b = COLLISION_BORDER;
    let cx = pos.x + vel.x;
    let cy = pos.y + vel.y;
    let top = floor_tile(pos.y + b);
    let bottom = floor_tile(pos.y + u - b);
    let mut nx = cx;
    let mut nvx = vel.x;
    if vel.x <= 0 {
        let col = floor_tile(cx + b);
        if collision.contains(TileCoord { x: col, y: top }) || collision.contains(
            TileCoord { x: col, y: bottom },
        ) {
            nx = (floor_tile(cx) as i64 + 1) * u;
            nvx = 0;
        }
    } else {
        let col = floor_tile(cx + u - b);
        if collision.contains(TileCoord { x: col, y: top }) || collision.contains(
            TileCoord { x: col, y: bottom },
        ) {
            nx = floor_tile(cx) as i64 * u;
            nvx = 0;
        }
    }
    let left = floor_tile(nx + b);
    let right = floor_tile(nx + u - b);
    let mut ny = cy;
    let mut nvy = vel.y;
    if vel.y <= 0 {
        let row = floor_tile(cy + b);
        if collision.contains(TileCoord { x: left, y: row }) || collision.contains(
            TileCoord { x: right, y: row },
        ) {
            ny = (floor_tile(cy) as i64 + 1) * u;
            nvy = 0;
        }
    } else {
        let row = floor_tile(cy + u - b);
        if collision.contains(TileCoord { x: left, y: row }) || collision.contains(
            TileCoord { x: right, y: row },
        ) {
            ny = floor_tile(cy) as i64 * u;
            nvy = 0;
        }
    }
    *pos = Position { x: nx, y: ny };
    *vel = Velocity { x: nvx, y: nvy };
}

proof fn lemma_tile_of_range(a: int, k: int)
    requires
        k * (UNITS_PER_TILE as int) <= a < (k + 1) * (UNITS_PER_TILE as int),
    ensures
        tile_of(a) == k,
{
    let u = UNITS_PER_TILE as int;
    assert(a == k * u + (a - k * u)) by (nonlinear_arith);
    vstd::arithmetic::div_mod::lemma_fundamental_div_mod_converse(a, u, k, a - k * u);
}

/// The horizontal move runs straight into a blocked tile beside the entity's column, on one of
/// the rows its footprint covers: the moved footprint's leading edge enters that tile, and the
/// move stays short of the tile's far side.
pub open spec fn hits_wall_x(blocked: Set<TileCoord>, pos: Position, vel: Velocity) -> bool {
    let u = UNITS_PER_TILE as int;
    let b = COLLISION_BORDER as int;
    let tx = tile_of(pos.x as int);
    let cx = pos.x + vel.x;
    let top = pos.y + b;
    let bottom = pos.y + u - b;
    if vel.x > 0 {
        &&& blocked_at(blocked, (tx + 1) * u, top) || blocked_at(blocked, (tx + 1) * u, bottom)
        &&& cx + u - b >= (tx + 1) * u
        &&& cx < (tx + 1) * u
    } else {
        &&& vel.x < 0
        &&& blocked_at(blocked, (tx - 1) * u, top) || blocked_at(blocked, (tx - 1) * u, bottom)
        &&& cx + b < tx * u
        &&& cx >= (tx - 1) * u
    }
}

/// The vertical move, from column `x`, runs straight into a blocked tile above or below the
/// entity's row, in the same sense as `hits_wall_x`.
pub open spec fn hits_wall_y(blocked: Set<TileCoord>, x: int, pos: Position, vel: Velocity) -> bool {
    let u = UNITS_PER_TILE as int;
    let b = COLLISION_BORDER as int;
    let ty = tile_of(pos.y as int);
    let cy = pos.y + vel.y;
    let left = x + b;
    let right = x + u - b;
    if vel.y > 0 {
        &&& blocked_at(blocked, left, (ty + 1) * u) || blocked_at(blocked, right, (ty + 1) * u)
        &&& cy + u - b >= (ty + 1) * u
        &&& cy < (ty + 1) * u
    } else {
        &&& vel.y < 0
        &&& blocked_at(blocked, left, (ty - 1) * u) || blocked_at(blocked, right, (ty - 1) * u)
        &&& cy + b < ty * u
        &&& cy >= (ty - 1) * u
    }
}

/// An entity moving straight into a blocked tile along `x` ends the pass in the column it
/// started in, with no `x` velocity left.
pub proof fn lemma_wall_stops_x(blocked: Set<TileCoord>, pos: Position, vel: Velocity)
    requires
        hits_wall_x(blocked, pos, vel),
    ensures
        tile_of(settle_x(blocked, pos, vel).0) == tile_of(pos.x as int),
        settle_x(blocked, pos, vel).1 == 0,
{
    let u = UNITS_PER_TILE as int;
    let b = COLLISION_BORDER as int;
    let tx = tile_of(pos.x as int);
    let cx = pos.x + vel.x;
    vstd::arithmetic::div_mod::lemma_fundamental_div_mod(pos.x as int, u);
    assert(tx * u <= pos.x < (tx + 1) * u) by {
        vstd::arithmetic::div_mod::lemma_mod_bound(pos.x as int, u);
        assert(u * tx == tx * u) by (nonlinear_arith);
        assert((tx + 1) * u == tx * u + u) by (nonlinear_arith);
    }
    assert((tx + 1) * u == tx * u + u && (tx - 1) * u == tx * u - u) by (nonlinear_arith);
    assert((tx + 2) * u == tx * u + 2 * u) by (nonlinear_arith);
    lemma_tile_of_range((tx + 1) * u, tx + 1);
    lemma_tile_of_range((tx - 1) * u, tx - 1);
    if vel.x > 0 {
        lemma_tile_of_range(cx, tx);
        lemma_tile_of_range(cx + u - b, tx + 1);
        lemma_tile_of_range(tx * u, tx);
    } else {
        lemma_tile_of_range(cx, tx - 1);
        lemma_tile_of_range(cx + b, tx - 1);
        lemma_tile_of_range(tx * u, tx);
    }
}

/// An entity moving straight into a blocked tile along `y` ends the pass in the row it started
/// in, with no `y` velocity left.
pub proof fn lemma_wall_stops_y(blocked: Set<TileCoord>, x: int, pos: Position, vel: Velocity)
    requires
        hits_wall_y(blocked, x, pos, vel),
    ensures
        tile_of(settle_y(blocked, x, pos, vel).0) == tile_of(pos.y as int),
        settle_y(blocked, x, pos, vel).1 == 0,
{
    let u = UNITS_PER_TILE as int;
    let b = COLLISION_BORDER as int;
    let ty = tile_of(pos.y as int);
    let cy = pos.y + vel.y;
    vstd::arithmetic::div_mod::lemma_fundamental_div_mod(pos.y as int, u);
    assert(ty * u <= pos.y < (ty + 1) * u) by {
        vstd::arithmetic::div_mod::lemma_mod_bound(pos.y as int, u);
        assert(u * ty == ty * u) by (nonlinear_arith);
        assert((ty + 1) * u == ty * u + u) by (nonlinear_arith);
    }
    assert((ty + 1) * u == ty * u + u && (ty - 1) * u == ty * u - u) by (nonlinear_arith);
    lemma_tile_of_range((ty + 1) * u, ty + 1);
    lemma_tile_of_range((ty - 1) * u, ty - 1);
    if vel.y > 0 {
        lemma_tile_of_range(cy, ty);
        lemma_tile_of_range(cy + u - b, ty + 1);
        lemma_tile_of_range(ty * u, ty);
    } else {
        lemma_tile_of_range(cy, ty - 1);
        lemma_tile_of_range(cy + b, ty - 1);
        lemma_tile_of_range(ty * u, ty);
    }
}

} // verus!
