use vstd::prelude::*;

use crate::geometry::{coord_fits, Position, Velocity, WORLD_LIMIT};

verus! {

/// Pursuit speed, in units per second (two tiles per second).
pub const PURSUIT_SPEED: i64 = 2_000_000;

/// Microseconds in a second: elapsed time is counted in microseconds.
pub const MICROS_PER_SECOND: i64 = 1_000_000;

/// Longest tick the steering accepts, in microseconds.
pub const MAX_TICK_MICROS: u64 = 1_000_000_000;

/// Below this distance from the goal (a tenth of a tile) an agent stops steering; a decaying
/// velocity slower than this per tick is set to exactly zero.
pub const DEAD_ZONE: i64 = 100_000;

/// Within this distance of a waypoint on both axes (a hundredth of a tile) it counts as
/// reached.
pub const WAYPOINT_EPSILON: i64 = 10_000;

/// Share of velocity, in percent, kept per second of decay.
pub const DAMPING_PERCENT: i64 = 97;

/// A released player whose speed falls below this (a thousandth of a tile per tick) stops.
pub const REST_SPEED: i64 = 1_000;

/// Default aggro radius of a path-following agent (ten and a half tiles).
pub const PATH_AGGRO_RADIUS: i64 = 10_500_000;

/// Default aggro radius of a direct-chase agent (three and a half tiles).
pub const DIRECT_AGGRO_RADIUS: i64 = 3_500_000;

/// `r` is the integer square root of `n`.
pub open spec fn is_isqrt(n: int, r: int) -> bool {
    0 <= r && r * r <= n < (r + 1) * (r + 1)
}

/// The integer square root of a non-negative `n`.
pub open spec fn int_sqrt(n: int) -> int {
    choose|r: int| is_isqrt(n, r)
}

proof fn lemma_isqrt_unique(n: int, a: int, b: int)
    requires
        is_isqrt(n, a),
        is_isqrt(n, b),
    ensures
        a == b,
{
    if a < b {
        assert((a + 1) * (a + 1) <= b * b) by (nonlinear_arith)
            requires
                0 <= a,
                a + 1 <= b,
        ;
    } else if b < a {
        assert((b + 1) * (b + 1) <= a * a) by (nonlinear_arith)
            requires
                0 <= b,
                b + 1 <= a,
        ;
    }
}

/// Integer square root, by bisection.
pub fn isqrt(n: u128) -> (r: u128)
    requires
        n < 0x1_0000_0000_0000_0000_0000_0000_0000,
    ensures
        is_isqrt(n as int, r as int),
        r == int_sqrt(n as int),
{
    let mut lo: u128 = 0;
    let mut hi: u128 = 0x100_0000_0000_0000;
    assert(hi * hi > n) by (nonlinear_arith)
        requires
            hi == 0x100_0000_0000_0000,
            n < 0x1_0000_0000_0000_0000_0000_0000_0000,
    ;
    while hi - lo > 1
        invariant
            lo < hi <= 0x100_0000_0000_0000,
            lo * lo <= n,
            n < hi * hi,
        decreases hi - lo,
    {
        let mid = lo + (hi - lo) / 2;
        assert(mid * mid <= 0x1_0000_0000_0000_0000_0000_0000_0000) by (nonlinear_arith)
            requires
                mid <= 0x100_0000_0000_0000,
        ;
        if mid * mid <= n {
            lo = mid;
        } else {
            hi = mid;
        }
    }
    proof {
        assert(is_isqrt(n as int, lo as int));
        lemma_isqrt_unique(n as int, lo as int, int_sqrt(n as int));
    }
    lo
}

/// The absolute value of `a`.
pub open spec fn magnitude(a: int) -> int {
    if a >= 0 {
        a
    } else {
        -a
    }
}

/// Division rounded toward zero.
pub open spec fn div_toward_zero(a: int, b: int) -> int {
    if a >= 0 {
        a / b
    } else {
        -((-a) / b)
    }
}

fn div_toward_zero_exec(a: i128, b: i128) -> (r: i128)
    requires
        b > 0,
        a > i128::MIN,
    ensures
        r == div_toward_zero(a as int, b as int),
{
    if a >= 0 {
        a / b
    } else {
        -((-a) / b)
    }
}

proof fn lemma_div_toward_zero_shrinks(a: int, num: int, den: int)
    requires
        0 <= num <= den,
        den > 0,
    ensures
        -magnitude(a) <= div_toward_zero(a * num, den) <= magnitude(a),
        a >= 0 ==> div_toward_zero(a * num, den) >= 0,
        a <= 0 ==> div_toward_zero(a * num, den) <= 0,
{
    let m = if a >= 0 { a } else { -a };
    assert(0 <= m * num <= m * den) by (nonlinear_arith)
        requires
            m >= 0,
            0 <= num <= den,
    ;
    vstd::arithmetic::div_mod::lemma_div_is_ordered(m * num, m * den, den);
    vstd::arithmetic::div_mod::lemma_div_multiples_vanish(m, den);
    assert((m * den) / den == m) by {
        assert(m * den == den * m) by (nonlinear_arith);
    }
    vstd::arithmetic::div_mod::lemma_div_pos_is_pos(m * num, den);
    if a < 0 {
        assert(a * num == -(m * num)) by (nonlinear_arith)
            requires
                m == -a,
        ;
        if m * num == 0 {
            assert(-(a * num) == 0);
        }
    }
}

/// The squared length of a velocity.
pub open spec fn speed_sq(v: Velocity) -> int {
    v.x * v.x + v.y * v.y
}

/// A velocity whose components stay within twice the world's extent.
pub open spec fn velocity_in_range(v: Velocity) -> bool {
    -2 * WORLD_LIMIT <= v.x <= 2 * WORLD_LIMIT && -2 * WORLD_LIMIT <= v.y <= 2 * WORLD_LIMIT
}

/// One tick of exponential decay: each component scaled by `0.97 × elapsed seconds`, rounded
/// toward zero; a result slower than `DEAD_ZONE` is clamped to exactly zero.
pub open spec fn decayed(v: Velocity, dt: int) -> Velocity {
    let den = 100 * MICROS_PER_SECOND as int;
    let x = div_toward_zero(v.x * (DAMPING_PERCENT * dt), den);
    let y = div_toward_zero(v.y * (DAMPING_PERCENT * dt), den);
    if x * x + y * y < DEAD_ZONE * DEAD_ZONE {
        Velocity { x: 0, y: 0 }
    } else {
        Velocity { x: x as i64, y: y as i64 }
    }
}

/// The velocity after one tick of decay.
pub fn decay(v: Velocity, dt: u64) -> (r: Velocity)
    requires
        velocity_in_range(v),
        dt <= MAX_TICK_MICROS,
    ensures
        r == decayed(v, dt as int),
{
    let den: i128 = 100 * MICROS_PER_SECOND as i128;
    let dt_wide: i128 = dt as i128;
    assert(0 <= dt_wide <= 1_000_000_000);
    let f: i128 = 97 * dt_wide;
    assert(f == DAMPING_PERCENT * dt);
    assert(-0x100_0000_0000_0000_0000_0000_0000 <= v.x * f <= 0x100_0000_0000_0000_0000_0000_0000) by (nonlinear_arith)
        requires
            -2 * WORLD_LIMIT <= v.x <= 2 * WORLD_LIMIT,
            0 <= f <= 97_000_000_000,
    ;
    assert(-0x100_0000_0000_0000_0000_0000_0000 <= v.y * f <= 0x100_0000_0000_0000_0000_0000_0000) by (nonlinear_arith)
        requires
            -2 * WORLD_LIMIT <= v.y <= 2 * WORLD_LIMIT,
            0 <= f <= 97_000_000_000,
    ;
    let x = div_toward_zero_exec(v.x as i128 * f, den);
    let y = div_toward_zero_exec(v.y as i128 * f, den);
    proof {
        lemma_decay_bound(v.x as int, f as int);
        lemma_decay_bound(v.y as int, f as int);
        assert(den == 100 * MICROS_PER_SECOND as int);
        assert(x == div_toward_zero(v.x as int * f as int, 100 * MICROS_PER_SECOND as int));
        assert(x * x <= 5_000_000_000_000_000_000_000_000_000_000_000_000);
        assert(y * y <= 5_000_000_000_000_000_000_000_000_000_000_000_000);
    }
    let rest: i128 = DEAD_ZONE as i128;
    assert(x * x >= 0 && y * y >= 0) by (nonlinear_arith);
    let xx: i128 = x * x;
    let yy: i128 = y * y;
    if xx + yy < rest * rest {
        Velocity { x: 0, y: 0 }
    } else {
        Velocity { x: x as i64, y: y as i64 }
    }
}

proof fn lemma_decay_bound(a: int, f: int)
    requires
        -2 * WORLD_LIMIT <= a <= 2 * WORLD_LIMIT,
        0 <= f <= 97_000_000_000,
    ensures
        -2 * WORLD_LIMIT * 1000 <= div_toward_zero(a * f, 100 * MICROS_PER_SECOND as int) <= 2
            * WORLD_LIMIT * 1000,
        (div_toward_zero(a * f, 100 * MICROS_PER_SECOND as int)) * (div_toward_zero(
            a * f,
            100 * MICROS_PER_SECOND as int,
        )) <= 5_000_000_000_000_000_000_000_000_000_000_000_000,
{
    let den = 100 * MICROS_PER_SECOND as int;
    let m = if a >= 0 { a } else { -a };
    assert(0 <= m * f <= m * (1000 * den)) by (nonlinear_arith)
        requires
            0 <= m,
            0 <= f <= 1000 * den,
    ;
    vstd::arithmetic::div_mod::lemma_div_is_ordered(m * f, m * (1000 * den), den);
    assert(m * (1000 * den) == (m * 1000) * den) by (nonlinear_arith);
    vstd::arithmetic::div_mod::lemma_div_multiples_vanish(m * 1000, den);
    assert(((m * 1000) * den) / den == m * 1000) by {
        assert((m * 1000) * den == den * (m * 1000)) by (nonlinear_arith);
    }
    vstd::arithmetic::div_mod::lemma_div_pos_is_pos(m * f, den);
    if a < 0 {
        assert(a * f == -(m * f)) by (nonlinear_arith)
            requires
                m == -a,
        ;
    }
    let q = div_toward_zero(a * f, den);
    assert(q * q <= 5_000_000_000_000_000_000_000_000_000_000_000_000) by (nonlinear_arith)
        requires
            -2 * WORLD_LIMIT * 1000 <= q <= 2 * WORLD_LIMIT * 1000,
    ;
}

/// Decay over a tick whose damping share `0.97 × elapsed seconds` is at most one never speeds a
/// velocity up on either axis, ends at
/// exactly zero once the result is slower than `DEAD_ZONE`, and keeps a resting velocity at
/// rest.
pub proof fn lemma_decay_never_speeds_up(v: Velocity, dt: int)
    requires
        0 <= dt,
        DAMPING_PERCENT * dt <= 100 * MICROS_PER_SECOND,
    ensures
        magnitude(decayed(v, dt).x as int) <= magnitude(v.x as int),
        magnitude(decayed(v, dt).y as int) <= magnitude(v.y as int),
        speed_sq(decayed(v, dt)) <= speed_sq(v),
        speed_sq(decayed(v, dt)) < DEAD_ZONE * DEAD_ZONE ==> decayed(v, dt) == (Velocity {
            x: 0,
            y: 0,
        }),
        v == (Velocity { x: 0, y: 0 }) ==> decayed(v, dt) == v,
{
    let den = 100 * MICROS_PER_SECOND as int;
    lemma_div_toward_zero_shrinks(v.x as int, DAMPING_PERCENT * dt, den);
    lemma_div_toward_zero_shrinks(v.y as int, DAMPING_PERCENT * dt, den);
    let r = decayed(v, dt);
    assert(r.x * r.x <= v.x * v.x) by (nonlinear_arith)
        requires
            magnitude(r.x as int) <= magnitude(v.x as int),
    ;
    assert(r.y * r.y <= v.y * v.y) by (nonlinear_arith)
        requires
            magnitude(r.y as int) <= magnitude(v.y as int),
    ;
}

/// Both coordinates of a point have tiles that fit a `TileCoord`.
pub open spec fn point_fits(p: Position) -> bool {
    coord_fits(p.x as int) && coord_fits(p.y as int)
}

/// The squared distance between two points.
pub open spec fn dist_sq(a: Position, b: Position) -> int {
    (b.x - a.x) * (b.x - a.x) + (b.y - a.y) * (b.y - a.y)
}

/// One tick of pursuit from `pos` toward `target`: the unit direction scaled by
/// `PURSUIT_SPEED` and the elapsed time, each component rounded toward zero. The distance is
/// the integer square root of the squared distance.
pub open spec fn pursuit_velocity(pos: Position, target: Position, dt: int) -> Velocity {
    let dx = target.x - pos.x;
    let dy = target.y - pos.y;
    let d = int_sqrt(dist_sq(pos, target));
    let k = PURSUIT_SPEED * dt;
    let m = MICROS_PER_SECOND as int;
    Velocity { x: div_toward_zero(dx * k, d * m) as i64, y: div_toward_zero(dy * k, d * m) as i64 }
}

/// The goal is inside the aggro radius and outside the dead zone.
pub open spec fn within_pursuit(pos: Position, goal: Position, aggro: int) -> bool {
    DEAD_ZONE * DEAD_ZONE < dist_sq(pos, goal) < aggro * aggro
}

proof fn lemma_pursuit_bound(a: int, n: int, d: int, k: int, m: int)
    requires
        0 <= a * a <= n,
        is_isqrt(n, d),
        d > 0,
        k >= 0,
        m > 0,
    ensures
        -(k / m) <= div_toward_zero(a * k, d * m) <= k / m,
{
    let b = if a >= 0 { a } else { -a };
    assert(a * a == b * b) by (nonlinear_arith)
        requires
            b == a || b == -a,
    ;
    assert(b <= d) by (nonlinear_arith)
        requires
            b >= 0,
            b * b <= n,
            n < (d + 1) * (d + 1),
            a * a == b * b,
            d >= 0,
    ;
    assert(0 <= b * k <= d * k) by (nonlinear_arith)
        requires
            0 <= b <= d,
            k >= 0,
    ;
    assert(d * m > 0) by (nonlinear_arith)
        requires
            d > 0,
            m > 0,
    ;
    vstd::arithmetic::div_mod::lemma_div_is_ordered(b * k, d * k, d * m);
    vstd::arithmetic::div_mod::lemma_div_denominator(d * k, d, m);
    vstd::arithmetic::div_mod::lemma_div_multiples_vanish(k, d);
    vstd::arithmetic::div_mod::lemma_div_pos_is_pos(b * k, d * m);
    if a < 0 {
        assert(a * k == -(b * k)) by (nonlinear_arith)
            requires
                b == -a,
        ;
    }
}

/// One tick of pursuit toward `target`.
pub fn pursuit(pos: Position, target: Position, dt: u64) -> (r: Velocity)
    requires
        point_fits(pos),
        point_fits(target),
        pos != target,
        dt <= MAX_TICK_MICROS,
    ensures
        r == pursuit_velocity(pos, target, dt as int),
        -2 * PURSUIT_SPEED * 1000 <= r.x <= 2 * PURSUIT_SPEED * 1000,
        -2 * PURSUIT_SPEED * 1000 <= r.y <= 2 * PURSUIT_SPEED * 1000,
{
    let dx: i128 = target.x as i128 - pos.x as i128;
    let dy: i128 = target.y as i128 - pos.y as i128;
    assert(0 <= dx * dx <= 20_000_000_000_000_000_000_000_000_000_000) by (nonlinear_arith)
        requires
            -4 * WORLD_LIMIT <= dx <= 4 * WORLD_LIMIT,
    ;
    assert(0 <= dy * dy <= 20_000_000_000_000_000_000_000_000_000_000) by (nonlinear_arith)
        requires
            -4 * WORLD_LIMIT <= dy <= 4 * WORLD_LIMIT,
    ;
    let n: i128 = dx * dx + dy * dy;
    assert(n > 0) by (nonlinear_arith)
        requires
            n == dx * dx + dy * dy,
            dx != 0 || dy != 0,
    ;
    let d: u128 = isqrt(n as u128);
    assert(d > 0) by (nonlinear_arith)
        requires
            is_isqrt(n as int, d as int),
            n > 0,
    ;
    assert(d < 0x100_0000_0000_0000) by (nonlinear_arith)
        requires
            is_isqrt(n as int, d as int),
            n <= 40_000_000_000_000_000_000_000_000_000_000,
    ;
    let dt_wide: i128 = dt as i128;
    assert(0 <= dt_wide <= 1_000_000_000);
    let k: i128 = 2_000_000 * dt_wide;
    assert(k == PURSUIT_SPEED * dt);
    let m: i128 = 1_000_000;
    let den: i128 = d as i128 * m;
    assert(-0x1_0000_0000_0000_0000_0000_0000_0000 <= dx * k <= 0x1_0000_0000_0000_0000_0000_0000_0000) by (nonlinear_arith)
        requires
            -4 * WORLD_LIMIT <= dx <= 4 * WORLD_LIMIT,
            0 <= k <= 2_000_000_000_000_000,
    ;
    assert(-0x1_0000_0000_0000_0000_0000_0000_0000 <= dy * k <= 0x1_0000_0000_0000_0000_0000_0000_0000) by (nonlinear_arith)
        requires
            -4 * WORLD_LIMIT <= dy <= 4 * WORLD_LIMIT,
            0 <= k <= 2_000_000_000_000_000,
    ;
    let vx = div_toward_zero_exec(dx * k, den);
    let vy = div_toward_zero_exec(dy * k, den);
    proof {
        assert(0 <= dx * dx && 0 <= dy * dy) by (nonlinear_arith);
        lemma_pursuit_bound(dx as int, n as int, d as int, k as int, m as int);
        lemma_pursuit_bound(dy as int, n as int, d as int, k as int, m as int);
        vstd::arithmetic::div_mod::lemma_div_is_ordered(k as int, 2_000_000_000_000_000, m as int);
        assert(n as int == dist_sq(pos, target));
    }
    Velocity { x: vx as i64, y: vy as i64 }
}

/// Direct chase: within pursuit range, head straight for the goal; otherwise decay.
pub open spec fn direct_chase_velocity(
    pos: Position,
    goal: Position,
    vel: Velocity,
    aggro: int,
    dt: int,
) -> Velocity {
    if within_pursuit(pos, goal, aggro) {
        pursuit_velocity(pos, goal, dt)
    } else {
        decayed(vel, dt)
    }
}

/// The goal is inside the aggro radius and outside the dead zone.
pub fn in_pursuit_range(pos: Position, goal: Position, aggro: i64) -> (r: bool)
    requires
        point_fits(pos),
        point_fits(goal),
        aggro >= 0,
    ensures
        r == within_pursuit(pos, goal, aggro as int),
{
    let dx: i128 = goal.x as i128 - pos.x as i128;
    let dy: i128 = goal.y as i128 - pos.y as i128;
    assert(0 <= dx * dx <= 20_000_000_000_000_000_000_000_000_000_000) by (nonlinear_arith)
        requires
            -4 * WORLD_LIMIT <= dx <= 4 * WORLD_LIMIT,
    ;
    assert(0 <= dy * dy <= 20_000_000_000_000_000_000_000_000_000_000) by (nonlinear_arith)
        requires
            -4 * WORLD_LIMIT <= dy <= 4 * WORLD_LIMIT,
    ;
    let n: i128 = dx * dx + dy * dy;
    let a: i128 = aggro as i128;
    assert(0 <= a * a <= 0x4000_0000_0000_0000_0000_0000_0000_0000) by (nonlinear_arith)
        requires
            0 <= a <= i64::MAX,
    ;
    let dz: i128 = DEAD_ZONE as i128;
    dz * dz < n && n < a * a
}

proof fn lemma_apart(a: Position, b: Position)
    requires
        dist_sq(a, b) > 0,
    ensures
        a != b,
{
}

/// One tick of a direct-chase agent: the new velocity.
pub fn handle_enemy_movement_dumb(
    pos: Position,
    goal: Position,
    vel: Velocity,
    aggro: i64,
    dt: u64,
) -> (r: Velocity)
    requires
        point_fits(pos),
        point_fits(goal),
        velocity_in_range(vel),
        aggro >= 0,
        dt <= MAX_TICK_MICROS,
    ensures
        r == direct_chase_velocity(pos, goal, vel, aggro as int, dt as int),
{
    if in_pursuit_range(pos, goal, aggro) {
        proof {
            lemma_apart(pos, goal);
        }
        pursuit(pos, goal, dt)
    } else {
        decay(vel, dt)
    }
}

/// Once the goal is outside pursuit range, a direct-chase agent's velocity over a tick whose
/// damping share `0.97 × elapsed seconds` is at most one never gains speed on either axis, and is exactly zero once slower than
/// `DEAD_ZONE`.
pub proof fn lemma_out_of_range_slows(
    pos: Position,
    goal: Position,
    vel: Velocity,
    aggro: int,
    dt: int,
)
    requires
        !within_pursuit(pos, goal, aggro),
        0 <= dt,
        DAMPING_PERCENT * dt <= 100 * MICROS_PER_SECOND,
    ensures
        magnitude(direct_chase_velocity(pos, goal, vel, aggro, dt).x as int) <= magnitude(
            vel.x as int,
        ),
        magnitude(direct_chase_velocity(pos, goal, vel, aggro, dt).y as int) <= magnitude(
            vel.y as int,
        ),
        speed_sq(direct_chase_velocity(pos, goal, vel, aggro, dt)) <= speed_sq(vel),
        speed_sq(direct_chase_velocity(pos, goal, vel, aggro, dt)) < DEAD_ZONE * DEAD_ZONE
            ==> direct_chase_velocity(pos, goal, vel, aggro, dt) == (Velocity { x: 0, y: 0 }),
{
    lemma_decay_never_speeds_up(vel, dt);
}

/// Per-axis component of a diagonal unit vector, `1 / √2` in millionths (rounded).
pub const DIAGONAL_COMPONENT: i64 = 707_107;

/// Player friction: `3.999` per second, in thousandths.
pub const FRICTION_PER_MILLE: i64 = 3_999;

/// Largest player top speed accepted, in units per second (a thousand tiles per second).
pub const MAX_PLAYER_SPEED: i64 = 1_000_000_000;

/// The player's input direction in millionths per axis: a later key of a pair wins (down over
/// up, right over left), and a diagonal is scaled to unit length.
pub open spec fn input_direction(up: bool, down: bool, left: bool, right: bool) -> (int, int) {
    let y = if down {
        1int
    } else if up {
        -1int
    } else {
        0int
    };
    let x = if right {
        1int
    } else if left {
        -1int
    } else {
        0int
    };
    let scale = if x != 0 && y != 0 {
        DIAGONAL_COMPONENT as int
    } else {
        MICROS_PER_SECOND as int
    };
    (x * scale, y * scale)
}

/// One tick of player movement: the velocity moves toward `direction × speed × elapsed` by the
/// share `3.999 × elapsed seconds` of the gap, each step rounded toward zero; with no movement
/// key held, a result slower than `REST_SPEED` is set to exactly zero.
pub open spec fn player_velocity(
    up: bool,
    down: bool,
    left: bool,
    right: bool,
    vel: Velocity,
    speed: int,
    dt: int,
) -> Velocity {
    let (dx, dy) = input_direction(up, down, left, right);
    let m = MICROS_PER_SECOND as int;
    let tx = div_toward_zero(dx * (speed * dt), m * m);
    let ty = div_toward_zero(dy * (speed * dt), m * m);
    let f = FRICTION_PER_MILLE * dt;
    let x = vel.x + div_toward_zero((tx - vel.x) * f, 1000 * m);
    let y = vel.y + div_toward_zero((ty - vel.y) * f, 1000 * m);
    if !(up || down || left || right) && x * x + y * y < REST_SPEED * REST_SPEED {
        Velocity { x: 0, y: 0 }
    } else {
        Velocity { x: x as i64, y: y as i64 }
    }
}

proof fn lemma_blend_bound(v: int, t: int, f: int)
    requires
        -2 * WORLD_LIMIT <= v <= 2 * WORLD_LIMIT,
        -WORLD_LIMIT <= t <= WORLD_LIMIT,
        0 <= f <= 3_999_000_000,
    ensures
        -16 * WORLD_LIMIT <= v + div_toward_zero((t - v) * f, 1_000_000_000) <= 16 * WORLD_LIMIT,
{
    let g = t - v;
    let m = if g >= 0 { g } else { -g };
    assert(0 <= m * f <= (m * 4) * 1_000_000_000) by (nonlinear_arith)
        requires
            0 <= m,
            0 <= f <= 3_999_000_000,
    ;
    vstd::arithmetic::div_mod::lemma_div_is_ordered(m * f, (m * 4) * 1_000_000_000, 1_000_000_000 as int);
    vstd::arithmetic::div_mod::lemma_div_multiples_vanish(m * 4, 1_000_000_000 as int);
    assert(((m * 4) * 1_000_000_000) / 1_000_000_000 == m * 4) by {
        assert((m * 4) * 1_000_000_000 == 1_000_000_000 * (m * 4)) by (nonlinear_arith);
    }
    vstd::arithmetic::div_mod::lemma_div_pos_is_pos(m * f, 1_000_000_000 as int);
    if g < 0 {
        assert(g * f == -(m * f)) by (nonlinear_arith)
            requires
                m == -g,
        ;
    }
}

proof fn lemma_target_bound(d: int, k: int)
    requires
        -1_000_000 <= d <= 1_000_000,
        0 <= k <= 1_000_000_000 * 1_000_000,
    ensures
        -1_000_000_000 <= div_toward_zero(d * k, 1_000_000_000_000) <= 1_000_000_000,
{
    let m = if d >= 0 { d } else { -d };
    assert(0 <= m * k <= 1_000_000_000 * 1_000_000_000_000) by (nonlinear_arith)
        requires
            0 <= m <= 1_000_000,
            0 <= k <= 1_000_000_000 * 1_000_000,
    ;
    vstd::arithmetic::div_mod::lemma_div_is_ordered(
        m * k,
        1_000_000_000 * 1_000_000_000_000 as int,
        1_000_000_000_000 as int,
    );
    vstd::arithmetic::div_mod::lemma_div_multiples_vanish(1_000_000_000, 1_000_000_000_000 as int);
    assert((1_000_000_000 * 1_000_000_000_000 as int) / 1_000_000_000_000 == 1_000_000_000) by {
        assert(1_000_000_000 * 1_000_000_000_000 as int == 1_000_000_000_000 * 1_000_000_000 as int);
    }
    vstd::arithmetic::div_mod::lemma_div_pos_is_pos(m * k, 1_000_000_000_000 as int);
    if d < 0 {
        assert(d * k == -(m * k)) by (nonlinear_arith)
            requires
                m == -d,
        ;
    }
}

/// One tick of player movement from the movement keys held, for a tick of at most a second.
pub fn handle_player_movement(
    up: bool,
    down: bool,
    left: bool,
    right: bool,
    vel: Velocity,
    speed: i64,
    dt: u64,
) -> (r: Velocity)
    requires
        velocity_in_range(vel),
        0 <= speed <= MAX_PLAYER_SPEED,
        dt <= MICROS_PER_SECOND,
    ensures
        r == player_velocity(up, down, left, right, vel, speed as int, dt as int),
{
    let y: i128 = if down {
        1
    } else if up {
        -1
    } else {
        0
    };
    let x: i128 = if right {
        1
    } else if left {
        -1
    } else {
        0
    };
    let scale: i128 = if x != 0 && y != 0 {
        DIAGONAL_COMPONENT as i128
    } else {
        MICROS_PER_SECOND as i128
    };
    let dx = x * scale;
    let dy = y * scale;
    let dt_wide: i128 = dt as i128;
    let speed_wide: i128 = speed as i128;
    assert(0 <= dt_wide <= 1_000_000);
    assert(0 <= speed_wide * dt_wide <= 1_000_000_000 * 1_000_000) by (nonlinear_arith)
        requires
            0 <= speed_wide <= 1_000_000_000,
            0 <= dt_wide <= 1_000_000,
    ;
    let k: i128 = speed_wide * dt_wide;
    let mm: i128 = 1_000_000_000_000;
    assert(-1_000_000_000_000_000_000_000 <= dx * k <= 1_000_000_000_000_000_000_000) by (nonlinear_arith)
        requires
            -1_000_000 <= dx <= 1_000_000,
            0 <= k <= 1_000_000_000 * 1_000_000,
    ;
    assert(-1_000_000_000_000_000_000_000 <= dy * k <= 1_000_000_000_000_000_000_000) by (nonlinear_arith)
        requires
            -1_000_000 <= dy <= 1_000_000,
            0 <= k <= 1_000_000_000 * 1_000_000,
    ;
    let tx = div_toward_zero_exec(dx * k, mm);
    let ty = div_toward_zero_exec(dy * k, mm);
    proof {
        lemma_target_bound(dx as int, k as int);
        lemma_target_bound(dy as int, k as int);
    }
    let f: i128 = 3_999 * dt_wide;
    let gx: i128 = tx - vel.x as i128;
    let gy: i128 = ty - vel.y as i128;
    assert(-1_000_000_000_000_000_000_000_000_000 <= gx * f <= 1_000_000_000_000_000_000_000_000_000) by (nonlinear_arith)
        requires
            -3 * WORLD_LIMIT <= gx <= 3 * WORLD_LIMIT,
            0 <= f <= 3_999_000_000,
    ;
    assert(-1_000_000_000_000_000_000_000_000_000 <= gy * f <= 1_000_000_000_000_000_000_000_000_000) by (nonlinear_arith)
        requires
            -3 * WORLD_LIMIT <= gy <= 3 * WORLD_LIMIT,
            0 <= f <= 3_999_000_000,
    ;
    let nx: i128 = vel.x as i128 + div_toward_zero_exec(gx * f, 1_000_000_000);
    let ny: i128 = vel.y as i128 + div_toward_zero_exec(gy * f, 1_000_000_000);
    proof {
        lemma_blend_bound(vel.x as int, tx as int, f as int);
        lemma_blend_bound(vel.y as int, ty as int, f as int);
        assert(0 <= nx * nx <= 1_000_000_000_000_000_000_000_000_000_000_000) by (nonlinear_arith)
            requires
                -16 * WORLD_LIMIT <= nx <= 16 * WORLD_LIMIT,
        ;
        assert(0 <= ny * ny <= 1_000_000_000_000_000_000_000_000_000_000_000) by (nonlinear_arith)
            requires
                -16 * WORLD_LIMIT <= ny <= 16 * WORLD_LIMIT,
        ;
    }
    let rest: i128 = REST_SPEED as i128;
    if !(up || down || left || right) && nx * nx + ny * ny < rest * rest {
        Velocity { x: 0, y: 0 }
    } else {
        Velocity { x: nx as i64, y: ny as i64 }
    }
}

} // verus!
