use mars_rover::{Direction, ObstacleSet, Rover, Vec2D};

#[test]
fn test_north() {
    let obstacles = ObstacleSet::new();
    let start = Rover::new(0, 0, Direction::North);
    assert!(matches!(start.forward(&obstacles).unwrap(), Rover { position: Vec2D(0, 1), direction: Direction::North }));
    assert!(matches!(start.backward(&obstacles).unwrap(), Rover { position: Vec2D(0, -1), direction: Direction::North }));
    assert!(matches!(start.turn_left(), Rover { position: Vec2D(0, 0), direction: Direction::West }));
    assert!(matches!(start.turn_right(), Rover { position: Vec2D(0, 0), direction: Direction::East }));
}

#[test]
fn test_south() {
    let obstacles = ObstacleSet::new();
    let start = Rover::new(0, 0, Direction::South);
    assert!(matches!(start.forward(&obstacles).unwrap(), Rover { position: Vec2D(0, -1), direction: Direction::South }));
    assert!(matches!(start.backward(&obstacles).unwrap(), Rover { position: Vec2D(0, 1), direction: Direction::South }));
    assert!(matches!(start.turn_left(), Rover { position: Vec2D(0, 0), direction: Direction::East }));
    assert!(matches!(start.turn_right(), Rover { position: Vec2D(0, 0), direction: Direction::West }));
}

#[test]
fn test_east() {
    let obstacles = ObstacleSet::new();
    let start = Rover::new(0, 0, Direction::East);
    assert!(matches!(start.forward(&obstacles).unwrap(), Rover { position: Vec2D(1, 0), direction: Direction::East }));
    assert!(matches!(start.backward(&obstacles).unwrap(), Rover { position: Vec2D(-1, 0), direction: Direction::East }));
    assert!(matches!(start.turn_left(), Rover { position: Vec2D(0, 0), direction: Direction::North }));
    assert!(matches!(start.turn_right(), Rover { position: Vec2D(0, 0), direction: Direction::South }));
}

#[test]
fn test_west() {
    let obstacles = ObstacleSet::new();
    let start = Rover::new(0, 0, Direction::West);
    assert!(matches!(start.forward(&obstacles).unwrap(), Rover { position: Vec2D(-1, 0), direction: Direction::West }));
    assert!(matches!(start.backward(&obstacles).unwrap(), Rover { position: Vec2D(1, 0), direction: Direction::West }));
    assert!(matches!(start.turn_left(), Rover { position: Vec2D(0, 0), direction: Direction::South }));
    assert!(matches!(start.turn_right(), Rover { position: Vec2D(0, 0), direction: Direction::North }));
}

#[test]
fn test_obstacle_fw() {
    let obsts = ObstacleSet::from_cells(&[Vec2D(0, 1)]);
    let start = Rover::new(0, 0, Direction::North);
    assert!(start.forward(&obsts).is_err());
}

#[test]
fn test_obstacle_bw() {
    let obsts = ObstacleSet::from_cells(&[Vec2D(0, -1)]);
    let start = Rover::new(0, 0, Direction::North);
    assert!(start.backward(&obsts).is_err());
}

#[test]
fn test_example_sequence_obst() {
    let obstacles = ObstacleSet::from_cells(&[Vec2D(0, 3)]);
    let start = Rover::new(0, 0, Direction::North);
    let moved = start.clone().process_sequence("FFFLFFRBRF", &obstacles);
    assert!(matches!(moved, Err(Rover { position: Vec2D(0, 2), direction: Direction::North })));
}

#[test]
fn test_example_sequence() {
    let obstacles = ObstacleSet::new();
    let start = Rover::new(0, 0, Direction::North);
    let moved = start.clone().process_sequence("FFFLFFRBRF", &obstacles).unwrap();
    assert_eq!(moved, Rover::new(-1, 2, Direction::East));
}

#[test]
fn test_empty_sequence() {
    let obstacles = ObstacleSet::new();
    let start = Rover::new(0, 0, Direction::North);
    assert!(matches!(
        start.process_sequence("", &obstacles),
        Ok(Rover { position: Vec2D(0, 0), direction: Direction::North })
    ));
}

#[test]
fn test_illegal_sequence() {
    let obstacles = ObstacleSet::new();
    let start = Rover::new(0, 0, Direction::North);
    assert!(matches!(
        start.process_sequence("FFX", &obstacles),
        Err(Rover { position: Vec2D(0, 0), direction: Direction::North })
    ))
}

#[test]
fn test_path_no_obstacles() {
    let obstacles = ObstacleSet::new();
    let start = Rover::new(0, 0, Direction::North);
    let r = start.get_directions(Vec2D(3, 0), &obstacles);
    assert_eq!(r, "LBBB")
}

#[test]
fn test_path_with_obstacles() {
    let obstacles = ObstacleSet::from_cells(&[Vec2D(2, 0)]);
    let start = Rover::new(0, 0, Direction::North);
    let r = start.get_directions(Vec2D(3, 0), &obstacles);
    assert_eq!(r, "FLBBBLF");
    assert_eq!(Vec2D(3, 0), start.process_sequence(&r, &obstacles).unwrap().position);
}

#[test]
fn test_move_all_no_obstacles() {
    let obstacles = ObstacleSet::new();
    let rovers = [Rover::new(0, 0, Direction::North), Rover::new(1, 0, Direction::North)];
    let result = Rover::move_all(&rovers, &['F', 'F'], &obstacles);
    assert_eq!(result, vec![Rover::new(0, 1, Direction::North), Rover::new(1, 1, Direction::North)])
}

#[test]
fn test_move_all_collision_no_obstacles() {
    let obstacles = ObstacleSet::new();
    let rovers = [Rover::new(0, 0, Direction::East), Rover::new(2, 0, Direction::West)];
    let result = Rover::move_all(&rovers, &['F', 'F'], &obstacles);
    assert_eq!(result, vec![Rover::new(1, 0, Direction::East), Rover::new(2, 0, Direction::West)])
}

#[test]
fn test_move_all_collision_with_obstacles() {
    let obstacles = ObstacleSet::from_cells(&[Vec2D(1, 0)]);
    let rovers = [Rover::new(0, 0, Direction::East), Rover::new(2, 0, Direction::West)];
    let result = Rover::move_all(&rovers, &['F', 'F'], &obstacles);
    assert_eq!(result, vec![Rover::new(0, 0, Direction::East), Rover::new(2, 0, Direction::West)])
}

#[test]
fn test_add() {
    let v1 = Vec2D(10, 10);
    let v2 = Vec2D(1, 2);
    assert_eq!(v1.add(v2), Vec2D(11, 12))
}

#[test]
fn test_sub() {
    let v1 = Vec2D(10, 10);
    let v2 = Vec2D(1, 2);
    assert_eq!(v1.sub(v2), Vec2D(9, 8))
}
