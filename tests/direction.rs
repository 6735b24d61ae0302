use battleship::direction::Direction;
use battleship::error::ErrorKind;
use rand::rngs::StdRng;
use rand::SeedableRng;

#[test]
fn opposite() {
    assert_eq!(Direction::North.opposite(), Direction::South);
    assert_eq!(Direction::South.opposite(), Direction::North);
    assert_eq!(Direction::East.opposite(), Direction::West);
    assert_eq!(Direction::West.opposite(), Direction::East);
}

#[test]
fn rotated() {
    assert_eq!(Direction::North.rotated(), Direction::East);
    assert_eq!(Direction::East.rotated(), Direction::South);
    assert_eq!(Direction::South.rotated(), Direction::West);
    assert_eq!(Direction::West.rotated(), Direction::North);
}

#[test]
fn from_positions() {
    // Only orthogonal neighbours give a direction: two cells apart is no single step.
    assert!(Direction::from_positions(&[0, 0], &[0, 2]).is_err());
    assert!(Direction::from_positions(&[0, 0], &[2, 0]).is_err());
    assert!(Direction::from_positions(&[0, 2], &[0, 0]).is_err());
    assert!(Direction::from_positions(&[2, 0], &[0, 0]).is_err());
    assert!(Direction::from_positions(&[0, 0], &[0, 0]).is_err());
    assert_eq!(
        Direction::from_positions(&[0, 0], &[0, 1]),
        Ok(Direction::South)
    );
    assert_eq!(
        Direction::from_positions(&[0, 0], &[1, 0]),
        Ok(Direction::East)
    );
    assert_eq!(
        Direction::from_positions(&[0, 1], &[0, 0]),
        Ok(Direction::North)
    );
    assert_eq!(
        Direction::from_positions(&[1, 0], &[0, 0]),
        Ok(Direction::West)
    );
}

#[test]
fn from_positions_rejects_diagonal_and_far_steps() {
    assert_eq!(
        Direction::from_positions(&[3, 3], &[4, 4]),
        Err(ErrorKind::InvalidLine)
    );
    assert_eq!(
        Direction::from_positions(&[255, 0], &[0, 0]),
        Err(ErrorKind::InvalidLine)
    );
    assert_eq!(
        Direction::from_positions(&[254, 255], &[255, 255]),
        Ok(Direction::East)
    );
}

#[test]
fn all_lists_each_direction_clockwise() {
    assert_eq!(
        Direction::all(),
        [
            Direction::North,
            Direction::East,
            Direction::South,
            Direction::West
        ]
    );
}

#[test]
fn random_directions_cover_all_four() {
    let mut rng = StdRng::seed_from_u64(11);
    let mut seen = [false; 4];
    for _ in 0..200 {
        let d = Direction::random(&mut rng);
        let i = Direction::all().iter().position(|x| *x == d).unwrap();
        seen[i] = true;
    }
    assert_eq!(seen, [true; 4]);
}

#[test]
fn from_index_follows_clockwise_order() {
    assert_eq!(Direction::from_index(0), Direction::North);
    assert_eq!(Direction::from_index(1), Direction::East);
    assert_eq!(Direction::from_index(2), Direction::South);
    assert_eq!(Direction::from_index(3), Direction::West);
}
