use battleship::error::ErrorKind;
use battleship::space::Space;

#[test]
fn set_checked() {
    let mut space = Space::new([0, 0]);
    assert!(space.set_checked(false).is_ok());
    assert!(space.set_checked(false).is_err());

    space = Space::new([0, 0]);
    assert!(space.set_checked(true).is_ok());
    assert!(space.set_checked(true).is_err());
}

#[test]
fn is_unchecked() {
    let mut space = Space::new([0, 0]);
    assert!(space.is_unchecked());
    assert!(space.set_checked(false).is_ok());
    assert!(!space.is_unchecked());

    space = Space::new([0, 0]);
    assert!(space.set_checked(true).is_ok());
    assert!(!space.is_unchecked());
}

#[test]
fn is_empty() {
    let mut space = Space::new([0, 0]);
    assert!(!space.is_empty());
    assert!(space.set_checked(false).is_ok());
    assert!(space.is_empty());

    space = Space::new([0, 0]);
    assert!(space.set_checked(true).is_ok());
    assert!(!space.is_empty());
}

#[test]
fn is_hit() {
    let mut space = Space::new([0, 0]);
    assert!(!space.is_hit());
    assert!(space.set_checked(true).is_ok());
    assert!(space.is_hit());

    space = Space::new([0, 0]);
    assert!(space.set_checked(false).is_ok());
    assert!(!space.is_hit());
}

#[test]
fn space_pos() {
    let space = Space::new([0, 0]);
    assert_eq!(space.pos(), &[0, 0]);
}

#[test]
fn second_check_keeps_first_outcome() {
    let mut space = Space::new([4, 7]);
    assert_eq!(space.set_checked(true), Ok(()));
    assert_eq!(space.set_checked(false), Err(ErrorKind::AlreadyChecked));
    assert!(space.is_hit());
    assert_eq!(space.pos(), &[4, 7]);
}
