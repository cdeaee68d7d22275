use tilechase::agent::Path;
use tilechase::collision::CollisionSet;
use tilechase::flow_field::FlowField;
use tilechase::geometry::{Position, TileCoord, UNITS_PER_TILE};
use tilechase::path::{build_path, lowest_neighbor};

fn t(x: i32, y: i32) -> TileCoord {
    TileCoord { x, y }
}

fn at(x: i32, y: i32) -> Position {
    Position { x: x as i64 * UNITS_PER_TILE, y: y as i64 * UNITS_PER_TILE }
}

fn grid(w: i32, h: i32) -> Vec<TileCoord> {
    let mut v = Vec::new();
    for y in 0..h {
        for x in 0..w {
            v.push(t(x, y));
        }
    }
    v
}

fn field_for(walkable: &Vec<TileCoord>, blocked: &Vec<TileCoord>, goal: TileCoord) -> FlowField {
    let set = CollisionSet::from_tiles(blocked);
    let mut f = FlowField::new();
    f.propagate_pathfinding_wave(walkable, &set, goal);
    f
}

#[test]
fn wall_with_one_gap_routes_through_the_gap() {
    // A wall down column 2 with a gap at (2, 2); goal on the left, agent on the right.
    let walk = grid(5, 5);
    let wall = vec![t(2, 0), t(2, 1), t(2, 3), t(2, 4)];
    let goal = t(0, 0);
    let goal_pos = Position { x: 250_000, y: 300_000 };
    let f = field_for(&walk, &wall, goal);
    let path = build_path(&f, t(4, 0), goal, goal_pos).unwrap();
    // Shortest gap-routed distance from (4, 0) to (0, 0): 2 + 2 down/up + 4 across = 8 hops.
    assert_eq!(f.get(t(4, 0)), 9);
    assert_eq!(path.len(), 8 + 1);
    assert!(path.contains(&at(2, 2)));
    for p in &path[..path.len() - 1] {
        let c = t((p.x / UNITS_PER_TILE) as i32, (p.y / UNITS_PER_TILE) as i32);
        assert!(!wall.contains(&c));
        assert!(f.get(c) > 0);
    }
    assert_eq!(path[path.len() - 2], at(0, 0));
    assert_eq!(*path.last().unwrap(), goal_pos);
}

#[test]
fn path_length_is_hop_distance_plus_one() {
    let walk = grid(6, 4);
    let f = field_for(&walk, &vec![t(1, 1), t(2, 1), t(3, 1)], t(0, 0));
    let start = t(5, 3);
    let hops = f.get(start) - 1;
    assert_eq!(hops, 8);
    let path = build_path(&f, start, t(0, 0), at(0, 0)).unwrap();
    assert_eq!(path.len() as i32, hops + 1);
    // Each step is one tile further downhill.
    let mut label = f.get(start);
    for p in &path[..path.len() - 1] {
        let c = t((p.x / UNITS_PER_TILE) as i32, (p.y / UNITS_PER_TILE) as i32);
        assert_eq!(f.get(c), label - 1);
        label -= 1;
    }
}

#[test]
fn ties_break_up_right_down_left() {
    // From (1, 1) with the goal at (0, 0): up (1, 0) and left (0, 1) both carry 2.
    let f = field_for(&grid(2, 2), &vec![], t(0, 0));
    assert_eq!(lowest_neighbor(&f, t(1, 1)), Some(t(1, 0)));
    // From (0, 1) with the goal at (1, 2): right (1, 1) and down (0, 2) both carry 2.
    let g = field_for(&grid(2, 3), &vec![], t(1, 2));
    assert_eq!(lowest_neighbor(&g, t(0, 1)), Some(t(1, 1)));
}

#[test]
fn no_neighbour_with_a_label_means_no_path() {
    let mut walk = grid(2, 1);
    walk.push(t(5, 5));
    let f = field_for(&walk, &vec![], t(0, 0));
    assert_eq!(lowest_neighbor(&f, t(5, 5)), None);
    assert_eq!(build_path(&f, t(5, 5), t(0, 0), at(0, 0)), None);
}

#[test]
fn agent_on_the_goal_tile_gets_only_the_goal_position() {
    let f = field_for(&grid(3, 3), &vec![], t(1, 1));
    let goal_pos = Position { x: 1_400_000, y: 1_600_000 };
    assert_eq!(build_path(&f, t(1, 1), t(1, 1), goal_pos), Some(vec![goal_pos]));
}

#[test]
fn agent_inside_a_wall_steps_out_first() {
    let walk = grid(3, 1);
    let f = field_for(&walk, &vec![t(2, 0)], t(0, 0));
    let path = build_path(&f, t(2, 0), t(0, 0), at(0, 0)).unwrap();
    assert_eq!(path, vec![at(1, 0), at(0, 0), at(0, 0)]);
}

#[test]
fn stale_field_for_another_goal_gives_no_path() {
    let f = field_for(&grid(4, 1), &vec![], t(0, 0));
    // Descending from (1, 0) ends at the field's own goal (0, 0), not at (3, 0).
    assert_eq!(build_path(&f, t(1, 0), t(3, 0), at(3, 0)), None);
}

#[test]
fn path_rebuild_waits_for_the_cooldown() {
    let f = field_for(&grid(4, 1), &vec![], t(0, 0));
    let mut path = Path::new();
    assert!(!path.rebuild(&f, at(3, 0), t(0, 0), at(0, 0)));
    assert_eq!(path.points().len(), 0);
    path.update_timer(999_999);
    assert!(!path.rebuild(&f, at(3, 0), t(0, 0), at(0, 0)));
    path.update_timer(1);
    assert!(path.rebuild(&f, at(3, 0), t(0, 0), at(0, 0)));
    assert_eq!(path.points(), &vec![at(2, 0), at(1, 0), at(0, 0), at(0, 0)]);
    assert_eq!(path.cursor(), 0);
    assert_eq!(path.timer().elapsed, 0);
    assert!(!path.timer().done);
}

#[test]
fn failed_rebuild_keeps_the_old_waypoints() {
    let f = field_for(&grid(4, 1), &vec![], t(0, 0));
    let mut path = Path::new();
    path.update_timer(1_000_000);
    assert!(path.rebuild(&f, at(3, 0), t(0, 0), at(0, 0)));
    let before = path.points().clone();
    path.update_timer(1_000_000);
    let mut walk = grid(4, 1);
    walk.push(t(9, 9));
    let g = field_for(&walk, &vec![], t(0, 0));
    assert!(!path.rebuild(&g, at(9, 9), t(0, 0), at(0, 0)));
    assert_eq!(path.points(), &before);
    assert!(!path.timer().done);
}
