use battleship::direction::Direction;
use battleship::error::ErrorKind;
use battleship::player::Player;
use rand::rngs::StdRng;
use rand::SeedableRng;

fn sorted(mut v: Vec<[u8; 2]>) -> Vec<[u8; 2]> {
    v.sort();
    v
}

#[test]
fn new_player_has_unchecked_grid() {
    let player = Player::new([4, 3], 2, false);
    assert_eq!(player.spaces().len(), 12);
    assert!(player.spaces().iter().all(|s| s.is_unchecked()));
    assert_eq!(player.space(&[3, 2]).pos(), &[3, 2]);
    assert_eq!(player.space(&[1, 0]).pos(), &[1, 0]);
    assert_eq!(player.grid_cursor(), &[0, 0]);
    assert!(player.ships().is_empty());
}

#[test]
fn get_ship_position_lays_body_away_from_facing() {
    let player = Player::new([10, 10], 1, false);
    assert_eq!(
        player.get_ship_position([2, 3], Direction::North, 3),
        Some(vec![[2, 3], [2, 4], [2, 5]])
    );
    assert_eq!(
        player.get_ship_position([2, 3], Direction::East, 3),
        Some(vec![[2, 3], [1, 3], [0, 3]])
    );
    assert_eq!(
        player.get_ship_position([2, 3], Direction::South, 3),
        Some(vec![[2, 3], [2, 2], [2, 1]])
    );
    assert_eq!(
        player.get_ship_position([2, 3], Direction::West, 3),
        Some(vec![[2, 3], [3, 3], [4, 3]])
    );
    assert_eq!(player.get_ship_position([1, 3], Direction::East, 3), None);
    assert_eq!(player.get_ship_position([8, 3], Direction::West, 3), None);
    assert_eq!(player.get_ship_position([10, 3], Direction::North, 1), None);
}

#[test]
fn add_ship_errors() {
    let mut player = Player::new([5, 5], 2, false);
    assert_eq!(
        player.add_ship([4, 4], Direction::West, 2, false),
        Err(ErrorKind::OutOfBounds)
    );
    assert_eq!(player.add_ship([0, 0], Direction::West, 2, false), Ok(()));
    assert_eq!(
        player.add_ship([1, 0], Direction::North, 2, false),
        Err(ErrorKind::Overlap)
    );
    assert_eq!(player.add_ship([0, 1], Direction::West, 2, false), Ok(()));
    assert_eq!(
        player.add_ship([3, 3], Direction::West, 2, false),
        Err(ErrorKind::InvalidLifecycle)
    );
    assert_eq!(player.ships().len(), 2);
}

#[test]
fn cpu_may_not_touch_but_human_may() {
    let mut human = Player::new([5, 5], 2, false);
    let mut cpu = Player::new([5, 5], 2, true);
    assert_eq!(human.add_ship([0, 0], Direction::West, 2, false), Ok(()));
    assert_eq!(cpu.add_ship([0, 0], Direction::West, 2, false), Ok(()));
    assert!(human.valid_ship_position(&[[0, 1], [1, 1]]));
    assert!(!cpu.valid_ship_position(&[[0, 1], [1, 1]]));
    assert!(cpu.valid_ship_position(&[[0, 2], [1, 2]]));
    assert!(!cpu.valid_ship_position(&[[0, 0]]));
    assert!(!cpu.valid_ship_position(&[[5, 0]]));
    assert!(cpu.ship_is_in_space(&[1, 0]));
    assert!(!cpu.ship_is_in_space(&[2, 0]));
    assert_eq!(
        cpu.add_ship([2, 0], Direction::North, 2, false),
        Err(ErrorKind::Overlap)
    );
}

#[test]
fn staged_ship_moves_rotates_and_commits() {
    let mut player = Player::new([6, 6], 2, false);
    assert_eq!(player.move_placement_ship(Direction::South), Err(ErrorKind::InvalidLifecycle));
    assert_eq!(player.add_placement_ship(3), Ok(()));
    assert_eq!(player.placement_ship().unwrap().pos(), &[[0, 0], [1, 0], [2, 0]]);
    assert_eq!(player.placement_ship().unwrap().dir(), Direction::West);
    assert_eq!(player.move_placement_ship(Direction::North), Err(ErrorKind::OutOfBounds));
    assert_eq!(player.move_placement_ship(Direction::South), Ok(()));
    assert_eq!(player.placement_ship().unwrap().pos(), &[[0, 1], [1, 1], [2, 1]]);
    assert_eq!(player.move_placement_ship(Direction::East), Ok(()));
    assert_eq!(player.placement_ship().unwrap().pos(), &[[1, 1], [2, 1], [3, 1]]);
    // West turns to North: the body runs down from the head.
    assert_eq!(player.rotate_placement_ship(), Ok(()));
    assert_eq!(player.placement_ship().unwrap().dir(), Direction::North);
    assert_eq!(player.placement_ship().unwrap().pos(), &[[1, 1], [1, 2], [1, 3]]);
    // North turns to East: the head is pulled right so the body stays on the grid.
    assert_eq!(player.rotate_placement_ship(), Ok(()));
    assert_eq!(player.placement_ship().unwrap().dir(), Direction::East);
    assert_eq!(player.placement_ship().unwrap().pos(), &[[2, 1], [1, 1], [0, 1]]);
    assert_eq!(player.place_placement_ship(), Ok(()));
    assert!(player.placement_ship().is_err());
    assert!(player.ships()[0].is_active());
    assert_eq!(player.place_placement_ship(), Err(ErrorKind::InvalidLifecycle));
}

#[test]
fn overlapping_staged_ship_is_refused_and_kept() {
    let mut player = Player::new([6, 6], 2, false);
    assert_eq!(player.add_placement_ship(2), Ok(()));
    assert_eq!(player.place_placement_ship(), Ok(()));
    assert_eq!(player.add_placement_ship(3), Ok(()));
    assert_eq!(player.place_placement_ship(), Err(ErrorKind::Overlap));
    assert!(player.placement_ship().unwrap().is_placement());
    assert_eq!(player.set_placement_ship(vec![[0, 2], [1, 2]]), Err(ErrorKind::InvalidLine));
    assert_eq!(
        player.set_placement_ship(vec![[5, 5], [6, 5], [7, 5]]),
        Err(ErrorKind::OutOfBounds)
    );
    assert_eq!(
        player.set_placement_ship(vec![[0, 2], [1, 3], [2, 4]]),
        Err(ErrorKind::InvalidLine)
    );
    assert_eq!(player.set_placement_ship(vec![[0, 2], [1, 2], [2, 2]]), Ok(()));
    assert_eq!(player.place_placement_ship(), Ok(()));
}

#[test]
fn rotation_that_cannot_fit_fails() {
    let mut player = Player::new([5, 2], 1, false);
    assert_eq!(player.add_placement_ship(3), Ok(()));
    assert_eq!(player.rotate_placement_ship(), Err(ErrorKind::OutOfBounds));
    assert_eq!(player.placement_ship().unwrap().dir(), Direction::West);
}

#[test]
fn placement_ship_mut_gives_the_staged_ship() {
    let mut player = Player::new([5, 5], 1, false);
    assert!(player.placement_ship_mut().is_err());
    assert_eq!(player.add_placement_ship(2), Ok(()));
    let ship = player.placement_ship_mut().unwrap();
    assert_eq!(ship.set_pos(vec![[3, 3], [3, 4]]), Ok(()));
    assert_eq!(player.placement_ship().unwrap().pos(), &[[3, 3], [3, 4]]);
}

#[test]
fn select_and_sink() {
    let mut player = Player::new([10, 10], 2, false);
    assert_eq!(player.add_ship([3, 3], Direction::North, 2, false), Ok(()));
    assert_eq!(player.select_space(&[10, 0]), Err(ErrorKind::OutOfBounds));
    assert_eq!(player.select_space(&[0, 0]), Ok(()));
    assert!(player.space(&[0, 0]).is_empty());
    assert_eq!(player.sink_ship_if_all_hit(&[0, 0]), Err(ErrorKind::NoShip));
    assert_eq!(player.select_space(&[3, 3]), Ok(()));
    assert!(player.space(&[3, 3]).is_hit());
    assert_eq!(player.sink_ship_if_all_hit(&[3, 3]), Ok(false));
    assert!(player.ships()[0].is_active());
    assert_eq!(player.select_space(&[3, 3]), Err(ErrorKind::AlreadyChecked));
    assert_eq!(player.select_space(&[3, 4]), Ok(()));
    assert_eq!(player.sink_ship_if_all_hit(&[3, 4]), Ok(true));
    assert!(player.ships()[0].is_sunk());
    assert!(player.all_ships_sunk());
    assert_eq!(player.sink_ship_if_all_hit(&[3, 3]), Ok(true));
    assert!(player.ships()[0].is_sunk());
}

#[test]
fn grid_cursor_stays_on_grid() {
    let mut player = Player::new([3, 3], 1, false);
    assert_eq!(player.move_grid_cursor(Direction::North), Err(ErrorKind::OutOfBounds));
    assert_eq!(player.move_grid_cursor(Direction::West), Err(ErrorKind::OutOfBounds));
    assert_eq!(player.move_grid_cursor(Direction::South), Ok(()));
    assert_eq!(player.move_grid_cursor(Direction::East), Ok(()));
    assert_eq!(player.grid_cursor(), &[1, 1]);
    assert_eq!(player.set_grid_cursor(&[2, 2]), Ok(()));
    assert_eq!(player.move_grid_cursor(Direction::East), Err(ErrorKind::OutOfBounds));
    assert_eq!(player.set_grid_cursor(&[3, 0]), Err(ErrorKind::OutOfBounds));
    assert_eq!(player.grid_cursor(), &[2, 2]);
}

#[test]
fn suggestions_widen_around_single_hit() {
    let mut player = Player::new([10, 10], 1, false);
    assert_eq!(player.add_ship([5, 5], Direction::North, 2, false), Ok(()));
    assert_eq!(player.select_space(&[5, 5]), Ok(()));
    assert_eq!(
        sorted(player.suggested_checks()),
        sorted(vec![[5, 4], [6, 5], [5, 6], [4, 5]])
    );
}

#[test]
fn suggestions_extend_line_of_hits() {
    let mut player = Player::new([10, 10], 1, false);
    assert_eq!(player.add_ship([5, 5], Direction::North, 3, false), Ok(()));
    assert_eq!(player.select_space(&[5, 5]), Ok(()));
    assert_eq!(player.select_space(&[5, 6]), Ok(()));
    let checks = player.suggested_checks();
    assert!(checks.contains(&[5, 4]));
    assert!(checks.contains(&[5, 7]));
    assert_eq!(sorted(checks), vec![[5, 4], [5, 7]]);
}

#[test]
fn suggestions_hunt_when_no_live_hit() {
    let mut player = Player::new([3, 2], 1, false);
    assert_eq!(player.add_ship([0, 0], Direction::West, 2, false), Ok(()));
    assert_eq!(player.suggested_checks().len(), 6);
    assert_eq!(player.select_space(&[2, 1]), Ok(()));
    let checks = player.suggested_checks();
    assert_eq!(checks.len(), 5);
    assert!(!checks.contains(&[2, 1]));
    // Sinking the ship leaves no live hit: back to every unchecked cell.
    assert_eq!(player.select_space(&[0, 0]), Ok(()));
    assert_eq!(player.select_space(&[1, 0]), Ok(()));
    assert_eq!(player.sink_ship_if_all_hit(&[1, 0]), Ok(true));
    assert_eq!(sorted(player.suggested_checks()), vec![[0, 1], [1, 1], [2, 0]]);
}

#[test]
fn suggestions_are_unchecked_and_distinct() {
    let mut player = Player::new([6, 6], 3, false);
    assert_eq!(player.add_ship([1, 1], Direction::West, 3, false), Ok(()));
    assert_eq!(player.add_ship([4, 2], Direction::North, 3, false), Ok(()));
    for pos in [[1, 1], [2, 1], [4, 3], [0, 0], [5, 5], [4, 2]] {
        assert_eq!(player.select_space(&pos), Ok(()));
        let checks = player.suggested_checks();
        assert!(!checks.is_empty());
        for c in &checks {
            assert!(player.space(c).is_unchecked());
        }
        assert_eq!(sorted(checks.clone()).len(), {
            let mut d = sorted(checks.clone());
            d.dedup();
            d.len()
        });
    }
}

#[test]
fn widen_skips_checked_neighbours() {
    let mut player = Player::new([10, 10], 1, false);
    assert_eq!(player.add_ship([5, 5], Direction::North, 2, false), Ok(()));
    assert_eq!(player.select_space(&[4, 5]), Ok(()));
    assert_eq!(player.select_space(&[5, 5]), Ok(()));
    assert_eq!(
        sorted(player.suggested_checks()),
        sorted(vec![[5, 4], [6, 5], [5, 6]])
    );
}

#[test]
fn cpu_fleet_never_overlaps_or_touches() {
    for seed in 0..20u64 {
        let mut rng = StdRng::seed_from_u64(seed);
        let mut cpu = Player::new([10, 10], 4, true);
        assert_eq!(cpu.cpu_place_ships(&[2, 3, 4, 5], &mut rng), Ok(()));
        let ships = cpu.ships();
        assert_eq!(ships.len(), 4);
        for (i, a) in ships.iter().enumerate() {
            assert!(a.is_active());
            assert_eq!(a.len(), [2, 3, 4, 5][i]);
            for (j, b) in ships.iter().enumerate() {
                if i == j {
                    continue;
                }
                for p in a.pos() {
                    for q in b.pos() {
                        let dx = (p[0] as i16 - q[0] as i16).abs();
                        let dy = (p[1] as i16 - q[1] as i16).abs();
                        assert!(dx + dy > 1, "ships {} and {} touch", i, j);
                    }
                }
            }
        }
    }
}

#[test]
fn cpu_placement_fails_without_room() {
    let mut rng = StdRng::seed_from_u64(3);
    let mut cpu = Player::new([3, 2], 2, true);
    assert_eq!(cpu.cpu_place_ships(&[3, 3], &mut rng), Err(ErrorKind::Overlap));
    assert_eq!(cpu.ships().len(), 1);
    assert!(cpu.placements(3).is_empty());
}

#[test]
fn placements_lists_every_valid_spot() {
    let player = Player::new([2, 1], 1, true);
    let spots = player.placements(2);
    assert_eq!(spots.len(), 2);
    assert!(spots.contains(&([0, 0], Direction::West)));
    assert!(spots.contains(&([1, 0], Direction::East)));
}

#[test]
fn find_unchecked_space_walks_over_hits() {
    let mut player = Player::new([10, 10], 1, false);
    assert_eq!(player.add_ship([2, 2], Direction::West, 4, false), Ok(()));
    assert_eq!(player.select_space(&[2, 2]), Ok(()));
    assert_eq!(player.select_space(&[3, 2]), Ok(()));
    assert_eq!(player.find_unchecked_space(&[2, 2], Direction::East, true), Some([4, 2]));
    assert_eq!(player.find_unchecked_space(&[2, 2], Direction::West, true), None);
    assert_eq!(player.find_unchecked_space(&[2, 2], Direction::West, false), Some([1, 2]));
    assert_eq!(player.movement(&[0, 0], Direction::North), None);
    assert_eq!(player.movement(&[0, 0], Direction::South), Some([0, 1]));
}
