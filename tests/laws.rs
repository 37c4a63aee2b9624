use mars_rover::{Direction, ObstacleSet, Rover, Vec2D};

const ALL: [Direction; 4] = [Direction::North, Direction::East, Direction::South, Direction::West];

#[test]
fn right_turns_cycle_in_four() {
    for d in ALL {
        assert_eq!(d.turn_right().turn_right().turn_right().turn_right(), d);
        assert_eq!(d.turn_right().turn_left(), d);
        assert_eq!(d.turn_left().turn_right(), d);
        assert_ne!(d.turn_right(), d);
    }
}

#[test]
fn forward_then_backward_returns() {
    let obstacles = ObstacleSet::from_cells(&[Vec2D(5, 5)]);
    for d in ALL {
        let start = Rover::new(3, -2, d);
        let there = start.forward(&obstacles).unwrap();
        assert_ne!(there.position, start.position);
        assert_eq!(there.backward(&obstacles).unwrap(), start);
        let back = start.backward(&obstacles).unwrap();
        assert_eq!(back.forward(&obstacles).unwrap(), start);
    }
}

#[test]
fn blocked_move_keeps_rover() {
    let obstacles = ObstacleSet::from_cells(&[Vec2D(1, 0)]);
    let start = Rover::new(0, 0, Direction::East);
    assert_eq!(start.forward(&obstacles), Err(start));
    assert_eq!(start.backward(&obstacles), Ok(Rover::new(-1, 0, Direction::East)));
}

#[test]
fn empty_sequence_keeps_any_rover() {
    let obstacles = ObstacleSet::from_cells(&[Vec2D(0, 1)]);
    let start = Rover::new(-7, 4, Direction::West);
    assert_eq!(start.process_sequence("", &obstacles), Ok(start));
}

#[test]
fn invalid_character_returns_start() {
    let obstacles = ObstacleSet::new();
    let start = Rover::new(2, 2, Direction::South);
    assert_eq!(start.process_sequence("RFFLBf", &obstacles), Err(start));
    assert_eq!(start.process_sequence("x", &obstacles), Err(start));
    assert_eq!(start.process_sequence("LLRRFFBB ", &obstacles), Err(start));
}

#[test]
fn blocked_before_invalid_character_stops_there() {
    let obstacles = ObstacleSet::from_cells(&[Vec2D(0, 2)]);
    let start = Rover::new(0, 0, Direction::North);
    assert_eq!(start.process_sequence("FFX", &obstacles), Err(Rover::new(0, 1, Direction::North)));
}

#[test]
fn turns_only_sequence() {
    let obstacles = ObstacleSet::new();
    let start = Rover::new(0, 0, Direction::North);
    assert_eq!(start.process_sequence("LLL", &obstacles), Ok(Rover::new(0, 0, Direction::East)));
    assert_eq!(start.process_sequence("RRBB", &obstacles), Ok(Rover::new(0, 2, Direction::South)));
}

#[test]
fn route_round_trip() {
    let obstacles = ObstacleSet::from_cells(&[Vec2D(1, 1), Vec2D(1, 2), Vec2D(2, 1), Vec2D(0, 3)]);
    let start = Rover::new(0, 0, Direction::South);
    for target in [Vec2D(2, 2), Vec2D(-3, 1), Vec2D(0, -4), Vec2D(4, 4)] {
        let route = start.get_directions(target, &obstacles);
        assert!(!route.is_empty());
        assert_eq!(start.process_sequence(&route, &obstacles).unwrap().position, target);
    }
}

#[test]
fn route_to_own_cell_is_empty() {
    let obstacles = ObstacleSet::new();
    let start = Rover::new(4, 4, Direction::East);
    assert_eq!(start.get_directions(Vec2D(4, 4), &obstacles), "");
}

#[test]
fn route_is_shortest_and_ordered() {
    let obstacles = ObstacleSet::new();
    let start = Rover::new(0, 0, Direction::North);
    assert_eq!(start.get_directions(Vec2D(0, 2), &obstacles), "FF");
    assert_eq!(start.get_directions(Vec2D(0, -1), &obstacles), "B");
    assert_eq!(start.get_directions(Vec2D(-2, 0), &obstacles), "LFF");
}

#[test]
fn unreachable_target_gives_empty_route() {
    let obstacles = ObstacleSet::from_cells(&[Vec2D(1, 0), Vec2D(-1, 0), Vec2D(0, 1), Vec2D(0, -1)]);
    let start = Rover::new(0, 0, Direction::North);
    assert_eq!(start.get_directions(Vec2D(3, 3), &obstacles), "");
}

#[test]
fn fleet_other_commands_leave_rover() {
    let obstacles = ObstacleSet::new();
    let rovers = [Rover::new(0, 0, Direction::North), Rover::new(5, 5, Direction::South)];
    let result = Rover::move_all(&rovers, &['x', 'L'], &obstacles);
    assert_eq!(result, vec![Rover::new(0, 0, Direction::North), Rover::new(5, 5, Direction::East)]);
}

#[test]
fn fleet_follows_a_rover_that_moved_away() {
    let obstacles = ObstacleSet::new();
    let rovers = [Rover::new(1, 0, Direction::East), Rover::new(0, 0, Direction::East)];
    let result = Rover::move_all(&rovers, &['F', 'F'], &obstacles);
    assert_eq!(result, vec![Rover::new(2, 0, Direction::East), Rover::new(1, 0, Direction::East)]);
}

#[test]
fn fleet_backward_into_moved_rover_is_blocked() {
    let obstacles = ObstacleSet::new();
    let rovers = [Rover::new(0, 0, Direction::North), Rover::new(0, 2, Direction::North)];
    let result = Rover::move_all(&rovers, &['F', 'B'], &obstacles);
    assert_eq!(result, vec![Rover::new(0, 1, Direction::North), Rover::new(0, 2, Direction::North)]);
}

#[test]
fn fleet_does_not_change_obstacles() {
    let obstacles = ObstacleSet::new();
    let rovers = [Rover::new(0, 0, Direction::North)];
    let _ = Rover::move_all(&rovers, &['F'], &obstacles);
    assert!(!obstacles.contains(Vec2D(0, 1)));
    assert!(!obstacles.contains(Vec2D(0, 0)));
}

#[test]
fn obstacle_set_insert_and_remove() {
    let mut set = ObstacleSet::new();
    assert!(!set.contains(Vec2D(i32::MIN, i32::MAX)));
    set.insert(Vec2D(i32::MIN, i32::MAX));
    set.insert(Vec2D(-1, 0));
    assert!(set.contains(Vec2D(i32::MIN, i32::MAX)));
    assert!(!set.contains(Vec2D(i32::MAX, i32::MIN)));
    assert!(!set.contains(Vec2D(0, -1)));
    set.remove(Vec2D(-1, 0));
    assert!(!set.contains(Vec2D(-1, 0)));
    let copy = set.copy();
    assert!(copy.contains(Vec2D(i32::MIN, i32::MAX)));
}

#[test]
fn direction_names() {
    assert_eq!(Direction::North.name(), "North");
    assert_eq!(Direction::West.name(), "West");
}

#[test]
fn sequence_fits_grid_edge() {
    let obstacles = ObstacleSet::new();
    let edge = Rover::new(i32::MAX, 0, Direction::East);
    assert!(!edge.sequence_fits("F", &obstacles));
    assert!(edge.sequence_fits("B", &obstacles));
    assert!(edge.sequence_fits("LFF", &obstacles));
    assert!(edge.sequence_fits("XF", &obstacles));
    assert!(edge.sequence_fits("", &obstacles));
    let walled = ObstacleSet::from_cells(&[Vec2D(i32::MAX - 1, 0)]);
    assert!(edge.sequence_fits("BBF", &walled));
    assert!(!edge.sequence_fits("BFF", &obstacles));
}
