use battleship::direction::Direction;
use battleship::error::ErrorKind;
use battleship::ship::Ship;

#[test]
fn ship_pos() {
    let pos = vec![[0, 0], [0, 1]];
    let ship = Ship::new(pos.clone()).unwrap();
    assert_eq!(ship.pos(), pos.as_slice());
}

#[test]
fn set_pos() {
    let mut ship = Ship::new(vec![[0, 0], [0, 1]]).unwrap();
    assert!(ship.set_pos(vec![[1, 0], [0, 0]]).is_ok());
    assert_eq!(ship.dir(), Direction::East);

    assert!(ship.set_pos(vec![[0, 1], [0, 0]]).is_ok());
    assert_eq!(ship.dir(), Direction::South);

    assert!(ship.set_pos(vec![[0, 0], [1, 0]]).is_ok());
    assert_eq!(ship.dir(), Direction::West);

    assert!(ship.set_pos(vec![[0, 0], [0, 1]]).is_ok());
    assert_eq!(ship.dir(), Direction::North);

    assert!(ship.set_pos(vec![[0, 0], [0, 0]]).is_err());
    assert!(ship.set_pos(vec![[0, 0], [0, 2]]).is_err());
    assert!(ship.set_pos(vec![]).is_err());
}

#[test]
fn dir() {
    let mut ship = Ship::new(vec![[0, 0], [0, 1]]).unwrap();
    assert_eq!(ship.dir(), Direction::North);

    ship = Ship::new(vec![[0, 1], [0, 0]]).unwrap();
    assert_eq!(ship.dir(), Direction::South);

    ship = Ship::new(vec![[0, 0], [1, 0]]).unwrap();
    assert_eq!(ship.dir(), Direction::West);

    ship = Ship::new(vec![[1, 0], [0, 0]]).unwrap();
    assert_eq!(ship.dir(), Direction::East);
}

#[test]
fn len() {
    let pos = vec![[0, 0], [0, 1]];
    let ship = Ship::new(pos.clone()).unwrap();
    assert_eq!(ship.len(), pos.len());
}

#[test]
fn is_placement() {
    let mut ship = Ship::new(vec![[0, 0], [0, 1]]).unwrap();
    assert!(ship.is_placement());
    assert!(ship.set_active().is_ok());
    assert!(!ship.is_placement());
    assert!(ship.set_sunk().is_ok());
    assert!(!ship.is_placement());
}

#[test]
fn is_active() {
    let mut ship = Ship::new(vec![[0, 0], [0, 1]]).unwrap();
    assert!(!ship.is_active());
    assert!(ship.set_active().is_ok());
    assert!(ship.is_active());
    assert!(ship.set_sunk().is_ok());
    assert!(!ship.is_active());
}

#[test]
fn set_active() {
    let mut ship = Ship::new(vec![[0, 0], [0, 1]]).unwrap();
    assert!(ship.set_active().is_ok());
    assert!(ship.set_active().is_err());
    assert!(ship.set_sunk().is_ok());
    assert!(ship.set_active().is_err());
}

#[test]
fn is_sunk() {
    let mut ship = Ship::new(vec![[0, 0], [0, 1]]).unwrap();
    assert!(!ship.is_sunk());
    assert!(ship.set_active().is_ok());
    assert!(!ship.is_sunk());
    assert!(ship.set_sunk().is_ok());
    assert!(ship.is_sunk());
}

#[test]
fn set_sunk() {
    let mut ship = Ship::new(vec![[0, 0], [0, 1]]).unwrap();
    assert!(ship.set_sunk().is_err());
    assert!(ship.set_active().is_ok());
    assert!(ship.set_sunk().is_ok());
    assert!(ship.set_sunk().is_err());
}

#[test]
fn new_checks_every_pair() {
    assert_eq!(
        Ship::new(vec![[0, 0], [0, 1], [1, 1]]).err(),
        Some(ErrorKind::InvalidLine)
    );
    assert_eq!(
        Ship::new(vec![[0, 0], [0, 1], [0, 0]]).err(),
        Some(ErrorKind::InvalidLine)
    );
    let ship = Ship::new(vec![[2, 5], [2, 4], [2, 3]]).unwrap();
    assert_eq!(ship.dir(), Direction::South);
    assert_eq!(ship.len(), 3);
}

#[test]
fn single_cell_ship_keeps_direction() {
    let mut ship = Ship::new(vec![[4, 4], [5, 4]]).unwrap();
    assert_eq!(ship.dir(), Direction::West);
    assert_eq!(ship.set_pos(vec![[7, 7]]), Ok(()));
    assert_eq!(ship.dir(), Direction::West);
    assert_eq!(ship.pos(), &[[7, 7]]);
}

#[test]
fn failed_set_pos_leaves_ship_alone() {
    let mut ship = Ship::new(vec![[1, 1], [1, 2]]).unwrap();
    assert_eq!(
        ship.set_pos(vec![[1, 1], [2, 2]]),
        Err(ErrorKind::InvalidLine)
    );
    assert_eq!(ship.pos(), &[[1, 1], [1, 2]]);
    assert_eq!(ship.dir(), Direction::North);
}
