use tilechase::collision::{handle_collision, CollisionSet};
use tilechase::geometry::{Position, TileCoord, Velocity};

fn t(x: i32, y: i32) -> TileCoord {
    TileCoord { x, y }
}

fn walls(tiles: &[TileCoord]) -> CollisionSet {
    CollisionSet::from_tiles(&tiles.to_vec())
}

fn step(pos: Position, vel: Velocity, set: &CollisionSet) -> (Position, Velocity) {
    let mut p = pos;
    let mut v = vel;
    handle_collision(&mut p, &mut v, set);
    (p, v)
}

#[test]
fn free_movement_adds_velocity() {
    let set = walls(&[t(5, 5)]);
    let (p, v) = step(Position { x: 1_000_000, y: 1_000_000 }, Velocity { x: 30_000, y: -20_000 }, &set);
    assert_eq!(p, Position { x: 1_030_000, y: 980_000 });
    assert_eq!(v, Velocity { x: 30_000, y: -20_000 });
}

#[test]
fn moving_right_into_a_wall_stops_in_the_same_column() {
    let set = walls(&[t(3, 1)]);
    let (p, v) = step(Position { x: 2_000_000, y: 1_000_000 }, Velocity { x: 150_000, y: 0 }, &set);
    assert_eq!(p.x / 1_000_000, 2);
    assert_eq!(p, Position { x: 2_000_000, y: 1_000_000 });
    assert_eq!(v.x, 0);
}

#[test]
fn moving_left_into_a_wall_stops_in_the_same_column() {
    let set = walls(&[t(1, 1)]);
    let (p, v) = step(Position { x: 2_050_000, y: 1_000_000 }, Velocity { x: -200_000, y: 0 }, &set);
    assert_eq!(p, Position { x: 2_000_000, y: 1_000_000 });
    assert_eq!(v, Velocity { x: 0, y: 0 });
}

#[test]
fn moving_down_into_a_wall_stops_in_the_same_row() {
    let set = walls(&[t(4, 3)]);
    let (p, v) = step(Position { x: 4_000_000, y: 2_000_000 }, Velocity { x: 0, y: 120_000 }, &set);
    assert_eq!(p, Position { x: 4_000_000, y: 2_000_000 });
    assert_eq!(v.y, 0);
}

#[test]
fn a_short_move_toward_a_wall_is_not_stopped() {
    // The footprint's inset border keeps a move of less than a tenth of a tile clear.
    let set = walls(&[t(4, 1)]);
    let (p, v) = step(Position { x: 4_000_000, y: 2_030_000 }, Velocity { x: 0, y: -100_000 }, &set);
    assert_eq!(p, Position { x: 4_000_000, y: 1_930_000 });
    assert_eq!(v.y, -100_000);
}

#[test]
fn moving_up_into_a_wall_stops_in_the_same_row() {
    let set = walls(&[t(4, 1)]);
    let (p, v) = step(Position { x: 4_000_000, y: 2_030_000 }, Velocity { x: 0, y: -200_000 }, &set);
    assert_eq!(p, Position { x: 4_000_000, y: 2_000_000 });
    assert_eq!(v.y, 0);
}

#[test]
fn diagonal_motion_slides_along_a_wall() {
    // A wall column at x = 3; moving right and down keeps the downward motion.
    let set = walls(&[t(3, 0), t(3, 1), t(3, 2)]);
    let (p, v) = step(Position { x: 2_000_000, y: 1_000_000 }, Velocity { x: 150_000, y: 50_000 }, &set);
    assert_eq!(p, Position { x: 2_000_000, y: 1_050_000 });
    assert_eq!(v, Velocity { x: 0, y: 50_000 });
}

#[test]
fn touching_edges_do_not_collide() {
    let set = walls(&[t(3, 1)]);
    let (p, v) = step(Position { x: 1_950_000, y: 1_000_000 }, Velocity { x: 50_000, y: 0 }, &set);
    assert_eq!(p, Position { x: 2_000_000, y: 1_000_000 });
    assert_eq!(v.x, 50_000);
}

#[test]
fn stationary_entity_is_tested_as_moving_left_and_up() {
    // Standing still over a blocked tile on its left edge snaps right of it.
    let set = walls(&[t(2, 1)]);
    let (p, v) = step(Position { x: 2_050_000, y: 1_000_000 }, Velocity { x: 0, y: 0 }, &set);
    assert_eq!(p, Position { x: 3_000_000, y: 1_000_000 });
    assert_eq!(v, Velocity { x: 0, y: 0 });
}

#[test]
fn negative_coordinates_floor_downward() {
    let set = walls(&[t(-2, 0)]);
    let (p, v) = step(Position { x: -1_000_000, y: 0 }, Velocity { x: -150_000, y: 0 }, &set);
    assert_eq!(p, Position { x: -1_000_000, y: 0 });
    assert_eq!(v.x, 0);
}
