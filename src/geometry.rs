use vstd::prelude::*;

verus! {

/// Continuous coordinates are fixed-point: one tile spans this many units.
pub const UNITS_PER_TILE: i64 = 1_000_000;

/// Largest magnitude, in tiles, of a tile coordinate that continuous positions may reach.
pub const WORLD_TILES: i64 = 0x4000_0000;

/// Largest magnitude, in units, of a continuous coordinate.
pub const WORLD_LIMIT: i64 = WORLD_TILES * UNITS_PER_TILE;

/// An integer grid cell.
#[derive(Clone, Copy, Debug, PartialEq, Eq, Hash, Structural)]
pub struct TileCoord {
    pub x: i32,
    pub y: i32,
}

/// A continuous position, in units of `1 / UNITS_PER_TILE` tile.
#[derive(Clone, Copy, Debug, PartialEq, Eq, Structural)]
pub struct Position {
    pub x: i64,
    pub y: i64,
}

/// A displacement per tick, in units of `1 / UNITS_PER_TILE` tile.
#[derive(Clone, Copy, Debug, PartialEq, Eq, Structural)]
pub struct Velocity {
    pub x: i64,
    pub y: i64,
}

/// The floor of a continuous coordinate, in tiles.
pub open spec fn tile_of(v: int) -> int {
    v / (UNITS_PER_TILE as int)
}

pub open spec fn coord_in_world(v: int) -> bool {
    -WORLD_LIMIT <= v <= WORLD_LIMIT
}

/// A coordinate whose tile fits in a `TileCoord`, with room to spare beyond the world.
pub open spec fn coord_fits(v: int) -> bool {
    -2 * WORLD_LIMIT <= v < 2 * WORLD_LIMIT
}

pub open spec fn in_world(p: Position) -> bool {
    coord_in_world(p.x as int) && coord_in_world(p.y as int)
}

/// The tile that holds a continuous position.
pub open spec fn tile_at(p: Position) -> TileCoord {
    TileCoord { x: tile_of(p.x as int) as i32, y: tile_of(p.y as int) as i32 }
}

/// The continuous position of a tile's origin corner.
pub open spec fn origin_of(c: TileCoord) -> Position {
    Position { x: (c.x * UNITS_PER_TILE) as i64, y: (c.y * UNITS_PER_TILE) as i64 }
}

/// Two cells that share an edge.
pub open spec fn adjacent(a: TileCoord, b: TileCoord) -> bool {
    (a.x == b.x && (a.y - b.y == 1 || b.y - a.y == 1)) || (a.y == b.y && (a.x - b.x == 1
        || b.x - a.x == 1))
}

/// The neighbour of `c` in scan direction `dir` (0 up, 1 right, 2 down, 3 left), where that
/// cell has coordinates that fit.
pub open spec fn neighbor_spec(c: TileCoord, dir: int) -> Option<TileCoord> {
    if dir == 0 {
        if c.y > i32::MIN {
            Some(TileCoord { x: c.x, y: (c.y - 1) as i32 })
        } else {
            None
        }
    } else if dir == 1 {
        if c.x < i32::MAX {
            Some(TileCoord { x: (c.x + 1) as i32, y: c.y })
        } else {
            None
        }
    } else if dir == 2 {
        if c.y < i32::MAX {
            Some(TileCoord { x: c.x, y: (c.y + 1) as i32 })
        } else {
            None
        }
    } else {
        if c.x > i32::MIN {
            Some(TileCoord { x: (c.x - 1) as i32, y: c.y })
        } else {
            None
        }
    }
}

/// The key under which a cell is stored in hashed grid structures.
pub open spec fn key_of(c: TileCoord) -> u64 {
    ((c.x as int + 0x8000_0000) * 0x1_0000_0000 + (c.y as int + 0x8000_0000)) as u64
}

pub proof fn lemma_key_of_injective(a: TileCoord, b: TileCoord)
    ensures
        key_of(a) == key_of(b) <==> a == b,
{
    let ha = a.x as int + 0x8000_0000;
    let la = a.y as int + 0x8000_0000;
    let hb = b.x as int + 0x8000_0000;
    let lb = b.y as int + 0x8000_0000;
    assert(0 <= ha * 0x1_0000_0000 + la < 0x1_0000_0000_0000_0000) by (nonlinear_arith)
        requires
            0 <= ha < 0x1_0000_0000,
            0 <= la < 0x1_0000_0000,
    ;
    assert(0 <= hb * 0x1_0000_0000 + lb < 0x1_0000_0000_0000_0000) by (nonlinear_arith)
        requires
            0 <= hb < 0x1_0000_0000,
            0 <= lb < 0x1_0000_0000,
    ;
    if key_of(a) == key_of(b) {
        assert(ha == hb && la == lb) by (nonlinear_arith)
            requires
                ha * 0x1_0000_0000 + la == hb * 0x1_0000_0000 + lb,
                0 <= la < 0x1_0000_0000,
                0 <= lb < 0x1_0000_0000,
        ;
    }
}

pub proof fn lemma_adjacent_cases(a: TileCoord, b: TileCoord)
    ensures
        adjacent(a, b) <==> (neighbor_spec(a, 0) == Some(b) || neighbor_spec(a, 1) == Some(b)
            || neighbor_spec(a, 2) == Some(b) || neighbor_spec(a, 3) == Some(b)),
        adjacent(a, b) <==> adjacent(b, a),
{
}

/// Encodes a cell as its storage key.
pub fn tile_key(c: TileCoord) -> (k: u64)
    ensures
        k == key_of(c),
{
    let hi = (c.x as i64 + 0x8000_0000) as u64;
    let lo = (c.y as i64 + 0x8000_0000) as u64;
    assert(hi * 0x1_0000_0000 + lo <= u64::MAX) by (nonlinear_arith)
        requires
            hi < 0x1_0000_0000,
            lo < 0x1_0000_0000,
    ;
    hi * 0x1_0000_0000 + lo
}

/// The neighbour of `c` in scan direction `dir`: 0 up, 1 right, 2 down, 3 left.
pub fn neighbor(c: TileCoord, dir: u8) -> (r: Option<TileCoord>)
    requires
        dir < 4,
    ensures
        r == neighbor_spec(c, dir as int),
{
    if dir == 0 {
        if c.y > i32::MIN {
            Some(TileCoord { x: c.x, y: c.y - 1 })
        } else {
            None
        }
    } else if dir == 1 {
        if c.x < i32::MAX {
            Some(TileCoord { x: c.x + 1, y: c.y })
        } else {
            None
        }
    } else if dir == 2 {
        if c.y < i32::MAX {
            Some(TileCoord { x: c.x, y: c.y + 1 })
        } else {
            None
        }
    } else {
        if c.x > i32::MIN {
            Some(TileCoord { x: c.x - 1, y: c.y })
        } else {
            None
        }
    }
}

proof fn lemma_floor_negative(v: int)
    requires
        v < 0,
    ensures
        v / (UNITS_PER_TILE as int) == -((-(v + 1)) / (UNITS_PER_TILE as int)) - 1,
{
    let u = UNITS_PER_TILE as int;
    let m = -(v + 1);
    let q = m / u;
    let r = m % u;
    vstd::arithmetic::div_mod::lemma_fundamental_div_mod(m, u);
    assert(v == (-q - 1) * u + (u - 1 - r)) by (nonlinear_arith)
        requires
            m == u * q + r,
            v == -(m + 1),
    ;
    vstd::arithmetic::div_mod::lemma_fundamental_div_mod_converse(v, u, -q - 1, u - 1 - r);
}

/// The tile that holds continuous coordinate `v` (the floor of `v / UNITS_PER_TILE`).
pub fn floor_tile(v: i64) -> (t: i32)
    requires
        coord_fits(v as int),
    ensures
        t == tile_of(v as int),
        coord_in_world(v as int) ==> -WORLD_TILES <= t <= WORLD_TILES,
{
    if v >= 0 {
        (v / UNITS_PER_TILE) as i32
    } else {
        proof {
            lemma_floor_negative(v as int);
        }
        let q = (-(v + 1)) / UNITS_PER_TILE;
        (-q - 1) as i32
    }
}

/// The tile that holds a continuous position.
pub fn tile_of_position(p: Position) -> (t: TileCoord)
    requires
        in_world(p),
    ensures
        t == tile_at(p),
{
    TileCoord { x: floor_tile(p.x), y: floor_tile(p.y) }
}

/// Refreshes a tracked tile coordinate from a continuous position, writing it only when the
/// tile actually changed; returns whether it changed.
pub fn update_player_trunc_pos(int_pos: &mut TileCoord, pos: Position) -> (changed: bool)
    requires
        in_world(pos),
    ensures
        *final(int_pos) == tile_at(pos),
        changed == (*old(int_pos) != tile_at(pos)),
{
    let t = tile_of_position(pos);
    if *int_pos != t {
        *int_pos = t;
        true
    } else {
        false
    }
}

} // verus!
