use tilechase::agent::{handle_enemy_path_movement, steer_enemy, Path, PursuitStrategy, Timer};
use tilechase::collision::handle_collision;
use tilechase::geometry::{
    floor_tile, tile_key, tile_of_position, update_player_trunc_pos, Position, TileCoord, Velocity,
};
use tilechase::level::Level;
use tilechase::steering::{
    decay, handle_enemy_movement_dumb, in_pursuit_range, isqrt, pursuit, DIRECT_AGGRO_RADIUS,
    PATH_AGGRO_RADIUS,
};

fn t(x: i32, y: i32) -> TileCoord {
    TileCoord { x, y }
}

fn speed_sq(v: Velocity) -> i128 {
    v.x as i128 * v.x as i128 + v.y as i128 * v.y as i128
}

#[test]
fn integer_square_roots() {
    assert_eq!(isqrt(0), 0);
    assert_eq!(isqrt(1), 1);
    assert_eq!(isqrt(15), 3);
    assert_eq!(isqrt(16), 4);
    assert_eq!(isqrt(1_000_000_000_000_000_000_000_000_000_000), 1_000_000_000_000_000);
    assert_eq!(isqrt(1_000_000_000_000_000_000_000_000_000_000 - 1), 999_999_999_999_999);
}

#[test]
fn pursuit_scales_the_unit_direction() {
    let v = pursuit(Position { x: 0, y: 0 }, Position { x: 3_000_000, y: 4_000_000 }, 10_000);
    assert_eq!(v, Velocity { x: 12_000, y: 16_000 });
    let w = pursuit(Position { x: 0, y: 0 }, Position { x: -3_000_000, y: -4_000_000 }, 10_000);
    assert_eq!(w, Velocity { x: -12_000, y: -16_000 });
}

#[test]
fn decay_scales_by_damping_and_elapsed_time() {
    let v = decay(Velocity { x: 1_000_000, y: -1_000_000 }, 500_000);
    assert_eq!(v, Velocity { x: 485_000, y: -485_000 });
}

#[test]
fn slow_decay_is_exactly_zero() {
    assert_eq!(decay(Velocity { x: 1_000, y: 0 }, 16_667), Velocity { x: 0, y: 0 });
    assert_eq!(decay(Velocity { x: 0, y: 0 }, 500_000), Velocity { x: 0, y: 0 });
}

#[test]
fn pursuit_range_excludes_the_dead_zone_and_the_radius() {
    let me = Position { x: 0, y: 0 };
    assert!(in_pursuit_range(me, Position { x: 3_000_000, y: 0 }, DIRECT_AGGRO_RADIUS));
    assert!(!in_pursuit_range(me, Position { x: 3_500_000, y: 0 }, DIRECT_AGGRO_RADIUS));
    assert!(!in_pursuit_range(me, Position { x: 100_000, y: 0 }, DIRECT_AGGRO_RADIUS));
    assert!(in_pursuit_range(me, Position { x: 100_001, y: 0 }, DIRECT_AGGRO_RADIUS));
}

#[test]
fn direct_chase_heads_for_the_goal_in_range() {
    let v = handle_enemy_movement_dumb(
        Position { x: 1_000_000, y: 1_000_000 },
        Position { x: 1_000_000, y: 3_000_000 },
        Velocity { x: 5, y: 5 },
        DIRECT_AGGRO_RADIUS,
        10_000,
    );
    assert_eq!(v, Velocity { x: 0, y: 20_000 });
}

#[test]
fn direct_chase_decays_out_of_range_and_in_the_dead_zone() {
    let far = handle_enemy_movement_dumb(
        Position { x: 0, y: 0 },
        Position { x: 9_000_000, y: 0 },
        Velocity { x: 1_000_000, y: 0 },
        DIRECT_AGGRO_RADIUS,
        500_000,
    );
    assert_eq!(far, Velocity { x: 485_000, y: 0 });
    let close = handle_enemy_movement_dumb(
        Position { x: 0, y: 0 },
        Position { x: 50_000, y: 0 },
        Velocity { x: 1_000_000, y: 0 },
        DIRECT_AGGRO_RADIUS,
        500_000,
    );
    assert_eq!(close, Velocity { x: 485_000, y: 0 });
}

#[test]
fn velocity_decays_monotonically_after_the_goal_leaves_range() {
    let mut pos = Position { x: 0, y: 0 };
    let mut vel = Velocity { x: 0, y: 0 };
    let dt = 500_000;
    // Chase while the goal is in range.
    vel = handle_enemy_movement_dumb(pos, Position { x: 2_000_000, y: 0 }, vel, DIRECT_AGGRO_RADIUS, dt);
    assert_eq!(vel, Velocity { x: 1_000_000, y: 0 });
    pos.x += vel.x;
    // The goal jumps far away: from now on the speed never grows and ends at zero.
    let goal = Position { x: 60_000_000, y: 40_000_000 };
    let mut last = speed_sq(vel);
    let mut ticks = 0;
    while vel != (Velocity { x: 0, y: 0 }) {
        vel = handle_enemy_movement_dumb(pos, goal, vel, DIRECT_AGGRO_RADIUS, dt);
        assert!(speed_sq(vel) <= last);
        last = speed_sq(vel);
        ticks += 1;
        assert!(ticks < 100);
    }
    assert_eq!(vel, Velocity { x: 0, y: 0 });
    // 1_000_000, 485_000, 235_225, 114_084, then 55_330 is below the dead zone.
    assert_eq!(ticks, 4);
}

#[test]
fn path_follower_converges_on_the_goal_down_a_corridor() {
    // An open corridor two rows tall (rows 0 and 1) from x = 0 to x = 12, walled around.
    let mut walk = Vec::new();
    for x in 0..13 {
        walk.push(t(x, 0));
        walk.push(t(x, 1));
    }
    let mut wall = Vec::new();
    for x in -1..14 {
        wall.push(t(x, -1));
        wall.push(t(x, 2));
    }
    for y in 0..2 {
        wall.push(t(-1, y));
        wall.push(t(13, y));
    }
    let mut level = Level::new(walk, &wall);
    // The goal stands half a tile into tile (5, 0), five tiles from the agent's tile.
    let goal = Position { x: 5_000_000, y: 500_000 };
    let mut goal_tile = t(0, -100);
    assert!(level.follow_goal(&mut goal_tile, goal));
    assert_eq!(goal_tile, t(5, 0));

    let mut pos = Position { x: 10_000_000, y: 0 };
    let mut vel = Velocity { x: 0, y: 0 };
    let mut path = Path::new();
    path.update_timer(1_000_000);
    assert!(path.rebuild(level.flow_field(), pos, goal_tile, goal));
    assert_eq!(path.points().len(), 6);
    assert_eq!(path.points()[4], Position { x: 5_000_000, y: 0 });

    let dt = 10_000;
    for _ in 0..2_000 {
        handle_enemy_path_movement(pos, goal, &mut vel, &mut path, PATH_AGGRO_RADIUS, dt);
        handle_collision(&mut pos, &mut vel, level.collision());
    }
    assert_eq!(tile_of_position(pos), goal_tile);
    assert_eq!(path.cursor(), path.points().len() - 1);
    assert_eq!(vel, Velocity { x: 0, y: 0 });
}

#[test]
fn path_follower_out_of_range_keeps_its_path_and_decays() {
    let mut path = Path::new();
    let mut vel = Velocity { x: 400_000, y: 0 };
    handle_enemy_path_movement(
        Position { x: 0, y: 0 },
        Position { x: 20_000_000, y: 0 },
        &mut vel,
        &mut path,
        PATH_AGGRO_RADIUS,
        500_000,
    );
    assert_eq!(vel, Velocity { x: 194_000, y: 0 });
    assert_eq!(path.points().len(), 0);
}

#[test]
fn path_follower_without_a_path_decays_in_range() {
    let mut path = Path::new();
    let mut vel = Velocity { x: 500_000, y: 0 };
    handle_enemy_path_movement(
        Position { x: 0, y: 0 },
        Position { x: 1_000_000, y: 0 },
        &mut vel,
        &mut path,
        PATH_AGGRO_RADIUS,
        500_000,
    );
    assert_eq!(vel, Velocity { x: 242_500, y: 0 });
    assert_eq!(path.points().len(), 0);
}

#[test]
fn decay_below_the_dead_zone_is_exactly_zero() {
    // A fifth of a tile per tick, decayed over a tenth of a second, is 19_400: below the dead zone.
    assert_eq!(decay(Velocity { x: 200_000, y: 0 }, 100_000), Velocity { x: 0, y: 0 });
    assert_eq!(decay(Velocity { x: 0, y: 300_000 }, 500_000), Velocity { x: 0, y: 145_500 });
}

#[test]
fn direct_strategy_ignores_the_path() {
    let mut path = Path::new();
    let mut vel = Velocity { x: 0, y: 0 };
    steer_enemy(
        PursuitStrategy::Direct,
        Position { x: 0, y: 0 },
        Position { x: 0, y: -2_000_000 },
        &mut vel,
        &mut path,
        DIRECT_AGGRO_RADIUS,
        10_000,
    );
    assert_eq!(vel, Velocity { x: 0, y: -20_000 });
    assert_eq!(path.cursor(), 0);
}

#[test]
fn timer_fires_after_its_period_and_restarts() {
    let mut timer = Timer::new(1_000);
    timer.update(400);
    assert!(!timer.done);
    timer.update(600);
    assert!(timer.done);
    assert_eq!(timer.elapsed, 1_000);
    timer.restart();
    assert_eq!(timer, Timer { period: 1_000, elapsed: 0, done: false });
    timer.update(u64::MAX);
    timer.update(5);
    assert_eq!(timer.elapsed, u64::MAX);
}

#[test]
fn tiles_floor_toward_negative_infinity() {
    assert_eq!(floor_tile(-1), -1);
    assert_eq!(floor_tile(-1_000_000), -1);
    assert_eq!(floor_tile(-1_000_001), -2);
    assert_eq!(floor_tile(999_999), 0);
    assert_eq!(tile_of_position(Position { x: -500_000, y: 1_500_000 }), t(-1, 1));
}

#[test]
fn tracked_tile_changes_only_with_the_floor() {
    let mut tile = t(1, 1);
    assert!(!update_player_trunc_pos(&mut tile, Position { x: 1_999_999, y: 1_000_000 }));
    assert!(update_player_trunc_pos(&mut tile, Position { x: 2_000_000, y: 1_000_000 }));
    assert_eq!(tile, t(2, 1));
}

#[test]
fn tile_keys_are_distinct() {
    assert_ne!(tile_key(t(1, 2)), tile_key(t(2, 1)));
    assert_ne!(tile_key(t(-1, 0)), tile_key(t(0, -1)));
    assert_eq!(tile_key(t(i32::MIN, i32::MIN)), 0);
    assert_eq!(tile_key(t(i32::MAX, i32::MAX)), u64::MAX);
}
