use tilechase::collision::CollisionSet;
use tilechase::flow_field::FlowField;
use tilechase::geometry::{Position, TileCoord};
use tilechase::level::Level;

fn t(x: i32, y: i32) -> TileCoord {
    TileCoord { x, y }
}

fn grid(w: i32, h: i32) -> Vec<TileCoord> {
    let mut v = Vec::new();
    for y in 0..h {
        for x in 0..w {
            v.push(t(x, y));
        }
    }
    v
}

fn field_for(walkable: &Vec<TileCoord>, blocked: &Vec<TileCoord>, goal: TileCoord) -> FlowField {
    let set = CollisionSet::from_tiles(blocked);
    let mut f = FlowField::new();
    f.propagate_pathfinding_wave(walkable, &set, goal);
    f
}

#[test]
fn open_grid_labels_are_hops_plus_one() {
    let f = field_for(&grid(3, 3), &vec![], t(1, 1));
    assert_eq!(f.get(t(1, 1)), 1);
    assert_eq!(f.get(t(0, 1)), 2);
    assert_eq!(f.get(t(2, 1)), 2);
    assert_eq!(f.get(t(1, 0)), 2);
    assert_eq!(f.get(t(1, 2)), 2);
    assert_eq!(f.get(t(0, 0)), 3);
    assert_eq!(f.get(t(2, 2)), 3);
}

#[test]
fn corridor_labels_grow_by_one_per_step() {
    let f = field_for(&grid(8, 1), &vec![], t(0, 0));
    for x in 0..8 {
        assert_eq!(f.get(t(x, 0)), x + 1);
    }
}

#[test]
fn collision_tiles_are_minus_one() {
    let walk = grid(3, 3);
    let wall = vec![t(1, 0), t(1, 1), t(7, 7)];
    let f = field_for(&walk, &wall, t(0, 0));
    assert_eq!(f.get(t(1, 0)), -1);
    assert_eq!(f.get(t(1, 1)), -1);
    // A blocked tile outside the walkable set is still labelled.
    assert_eq!(f.get(t(7, 7)), -1);
    // The detour around the wall is counted.
    assert_eq!(f.get(t(2, 0)), 7);
}

#[test]
fn unreachable_region_stays_zero() {
    let mut walk = grid(2, 1);
    walk.push(t(5, 5));
    walk.push(t(6, 5));
    let f = field_for(&walk, &vec![], t(0, 0));
    assert_eq!(f.get(t(1, 0)), 2);
    assert_eq!(f.get(t(5, 5)), 0);
    assert_eq!(f.get(t(6, 5)), 0);
}

#[test]
fn walled_off_half_stays_zero() {
    let walk = grid(5, 5);
    let wall: Vec<TileCoord> = (0..5).map(|y| t(2, y)).collect();
    let f = field_for(&walk, &wall, t(0, 0));
    for y in 0..5 {
        assert_eq!(f.get(t(3, y)), 0);
        assert_eq!(f.get(t(4, y)), 0);
        assert_eq!(f.get(t(2, y)), -1);
    }
    assert_eq!(f.get(t(1, 4)), 6);
}

#[test]
fn tiles_outside_the_domain_read_as_unvisited() {
    let f = field_for(&grid(2, 2), &vec![], t(0, 0));
    assert_eq!(f.get(t(100, -100)), 0);
    assert_eq!(FlowField::new().get(t(0, 0)), 0);
}

#[test]
fn rebuilding_for_the_same_goal_is_identical() {
    let walk = grid(6, 6);
    let wall = vec![t(2, 1), t(2, 2), t(2, 3), t(4, 4)];
    let set = CollisionSet::from_tiles(&wall);
    let mut f = FlowField::new();
    f.propagate_pathfinding_wave(&walk, &set, t(0, 5));
    let first: Vec<i32> = walk.iter().map(|c| f.get(*c)).collect();
    f.propagate_pathfinding_wave(&walk, &set, t(0, 5));
    let second: Vec<i32> = walk.iter().map(|c| f.get(*c)).collect();
    assert_eq!(first, second);
    assert_eq!(f.get(t(4, 4)), -1);
}

#[test]
fn rebuilding_for_a_new_goal_replaces_every_label() {
    let walk = grid(4, 1);
    let set = CollisionSet::new();
    let mut f = FlowField::new();
    f.propagate_pathfinding_wave(&walk, &set, t(0, 0));
    f.propagate_pathfinding_wave(&walk, &set, t(3, 0));
    assert_eq!(f.get(t(0, 0)), 4);
    assert_eq!(f.get(t(3, 0)), 1);
}

#[test]
fn goal_on_a_blocked_tile_is_still_seeded() {
    let walk = grid(3, 1);
    let wall = vec![t(1, 0)];
    let f = field_for(&walk, &wall, t(1, 0));
    assert_eq!(f.get(t(1, 0)), 1);
    assert_eq!(f.get(t(0, 0)), 2);
    assert_eq!(f.get(t(2, 0)), 2);
}

#[test]
fn reset_marks_walkable_zero_and_blocked_minus_one() {
    let walk = grid(3, 1);
    let set = CollisionSet::from_tiles(&vec![t(2, 0)]);
    let mut f = FlowField::new();
    f.propagate_pathfinding_wave(&walk, &set, t(0, 0));
    f.reset_flow_field(&walk, &set);
    assert_eq!(f.get(t(0, 0)), 0);
    assert_eq!(f.get(t(1, 0)), 0);
    assert_eq!(f.get(t(2, 0)), -1);
}

#[test]
fn collision_set_membership() {
    let mut set = CollisionSet::new();
    assert!(!set.contains(t(1, 2)));
    set.insert(t(1, 2));
    set.insert(t(1, 2));
    set.insert(t(-3, 4));
    assert!(set.contains(t(1, 2)));
    assert!(set.contains(t(-3, 4)));
    assert!(!set.contains(t(2, 1)));
    assert_eq!(set.tiles().len(), 2);
}

#[test]
fn new_level_starts_with_a_reset_field() {
    let level = Level::new(grid(2, 1), &vec![t(1, 0), t(4, 4)]);
    assert_eq!(level.flow_field().get(t(0, 0)), 0);
    assert_eq!(level.flow_field().get(t(1, 0)), -1);
    assert_eq!(level.flow_field().get(t(4, 4)), -1);
}

#[test]
fn level_rebuilds_only_when_the_goal_tile_changes() {
    let mut level = Level::new(grid(4, 1), &vec![]);
    let mut goal_tile = t(-1, -1);
    let rebuilt = level.follow_goal(&mut goal_tile, Position { x: 2_500_000, y: 200_000 });
    assert!(rebuilt);
    assert_eq!(goal_tile, t(2, 0));
    assert_eq!(level.flow_field().get(t(0, 0)), 3);
    let again = level.follow_goal(&mut goal_tile, Position { x: 2_900_000, y: 900_000 });
    assert!(!again);
    let moved = level.follow_goal(&mut goal_tile, Position { x: 3_000_000, y: 0 });
    assert!(moved);
    assert_eq!(level.flow_field().get(t(0, 0)), 4);
    level.reset_flow_field();
    assert_eq!(level.flow_field().get(t(3, 0)), 0);
}
