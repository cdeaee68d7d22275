use tilechase::geometry::Velocity;
use tilechase::steering::handle_player_movement;

const SPEED: i64 = 7_000_000;

#[test]
fn holding_right_accelerates_toward_top_speed() {
    let v = handle_player_movement(false, false, false, true, Velocity { x: 0, y: 0 }, SPEED, 10_000);
    assert_eq!(v, Velocity { x: 2_799, y: 0 });
}

#[test]
fn diagonal_input_is_normalised() {
    let v = handle_player_movement(false, true, false, true, Velocity { x: 0, y: 0 }, SPEED, 10_000);
    assert_eq!(v, Velocity { x: 1_979, y: 1_979 });
}

#[test]
fn later_key_of_a_pair_wins() {
    let v = handle_player_movement(true, true, true, true, Velocity { x: 0, y: 0 }, SPEED, 10_000);
    assert_eq!(v, Velocity { x: 1_979, y: 1_979 });
    let w = handle_player_movement(true, false, true, false, Velocity { x: 0, y: 0 }, SPEED, 10_000);
    assert_eq!(w, Velocity { x: -1_979, y: -1_979 });
}

#[test]
fn friction_slows_a_released_player() {
    let v = handle_player_movement(false, false, false, false, Velocity { x: 1_000_000, y: 0 }, SPEED, 10_000);
    assert_eq!(v, Velocity { x: 960_010, y: 0 });
}

#[test]
fn a_released_player_below_rest_speed_stops() {
    let v = handle_player_movement(false, false, false, false, Velocity { x: 500, y: 0 }, SPEED, 16_667);
    assert_eq!(v, Velocity { x: 0, y: 0 });
}

#[test]
fn a_held_key_keeps_a_slow_velocity() {
    let v = handle_player_movement(false, false, true, false, Velocity { x: 0, y: 0 }, SPEED, 100);
    assert_eq!(v, Velocity { x: 0, y: 0 });
    let w = handle_player_movement(false, false, true, false, Velocity { x: -500, y: 0 }, SPEED, 100);
    assert_eq!(w, Velocity { x: -500, y: 0 });
}
