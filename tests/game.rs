use battleship::direction::Direction;
use battleship::error::ErrorKind;
use battleship::game::Game;
use battleship::settings::GameSettings;
use rand::rngs::StdRng;
use rand::SeedableRng;

fn game_with(ships: Vec<u8>, seed: u64) -> Game {
    let settings = GameSettings {
        spaces: [10, 10],
        ships,
    };
    Game::new(settings, StdRng::seed_from_u64(seed)).unwrap()
}

#[test]
fn defaults_are_ten_by_ten_with_four_ships() {
    let settings = GameSettings::defaults();
    assert_eq!(settings.spaces, [10, 10]);
    assert_eq!(settings.ships, vec![2, 3, 4, 5]);
    assert!(settings.is_valid());
}

#[test]
fn invalid_settings_are_refused() {
    let rng = || StdRng::seed_from_u64(1);
    let empty = GameSettings { spaces: [10, 10], ships: vec![] };
    assert!(matches!(Game::new(empty, rng()), Err(ErrorKind::OutOfBounds)));
    let too_long = GameSettings { spaces: [4, 10], ships: vec![5] };
    assert!(matches!(Game::new(too_long, rng()), Err(ErrorKind::OutOfBounds)));
    let zero = GameSettings { spaces: [10, 10], ships: vec![0] };
    assert!(matches!(Game::new(zero, rng()), Err(ErrorKind::OutOfBounds)));
    let no_grid = GameSettings { spaces: [0, 10], ships: vec![1] };
    assert!(matches!(Game::new(no_grid, rng()), Err(ErrorKind::OutOfBounds)));
    let crowded = GameSettings { spaces: [3, 2], ships: vec![3, 3] };
    assert!(matches!(Game::new(crowded, rng()), Err(ErrorKind::Overlap)));
}

#[test]
fn new_game_stages_first_human_ship_and_places_cpu_fleet() {
    let game = game_with(vec![2, 3, 4, 5], 5);
    assert!(game.is_state_placement());
    assert_eq!(game.turn(), 0);
    assert_eq!(game.not_turn(), 1);
    assert!(game.is_player_placing_ship());
    let human = game.active_player();
    assert!(!human.is_cpu());
    assert_eq!(human.placement_ship().unwrap().pos(), &[[0, 0], [1, 0]]);
    let cpu = game.inactive_player();
    assert!(cpu.is_cpu());
    assert_eq!(cpu.ships().len(), 4);
    assert!(cpu.ships().iter().all(|s| s.is_active()));
    assert_eq!(game.get_winner(), None);
}

#[test]
fn placing_all_four_ships_then_a_fifth_is_refused() {
    let mut game = game_with(vec![2, 3, 4, 5], 7);
    assert_eq!(game.place_ship(), Ok(()));
    for _ in 0..1 {
        assert_eq!(game.move_ship(Direction::South), Ok(()));
    }
    assert_eq!(game.place_ship(), Ok(()));
    for _ in 0..2 {
        assert_eq!(game.move_ship(Direction::South), Ok(()));
    }
    assert_eq!(game.place_ship(), Ok(()));
    for _ in 0..3 {
        assert_eq!(game.move_ship(Direction::South), Ok(()));
    }
    assert!(!game.active_player_placed_all_ships());
    assert_eq!(game.place_ship(), Ok(()));
    assert!(game.active_player_placed_all_ships());
    let ships = game.active_player().ships();
    assert_eq!(ships.len(), 4);
    for (i, ship) in ships.iter().enumerate() {
        assert!(ship.is_active());
        assert_eq!(ship.len(), [2, 3, 4, 5][i]);
        assert_eq!(ship.pos()[0], [0, i as u8]);
    }
    assert_eq!(game.place_ship(), Err(ErrorKind::InvalidLifecycle));
    assert_eq!(
        game.active_player_mut().add_placement_ship(2),
        Err(ErrorKind::InvalidLifecycle)
    );
    assert_eq!(game.active_player().ships().len(), 4);
}

#[test]
fn overlapping_placement_is_refused() {
    let mut game = game_with(vec![2, 3], 2);
    assert_eq!(game.place_ship(), Ok(()));
    assert_eq!(game.place_ship(), Err(ErrorKind::Overlap));
    assert!(game.active_player().placement_ship().is_ok());
    assert_eq!(game.rotate_ship(), Ok(()));
    assert_eq!(game.move_ship(Direction::South), Ok(()));
    assert_eq!(game.active_player().placement_ship().unwrap().pos(), &[[0, 1], [0, 2], [0, 3]]);
    assert_eq!(game.place_ship(), Ok(()));
}

fn game_with_ship_at_3_3(ships: Vec<u8>) -> Game {
    let mut game = game_with(ships, 9);
    assert_eq!(game.set_placement_ship(vec![[3, 3], [3, 4]]), Ok(()));
    assert_eq!(game.place_ship(), Ok(()));
    game
}

#[test]
fn start_needs_both_fleets() {
    let mut game = game_with(vec![2, 3], 4);
    assert_eq!(game.set_state_active(), Err(ErrorKind::InvalidLifecycle));
    assert_eq!(game.select_space(&[0, 0]), Err(ErrorKind::InvalidLifecycle));
    assert_eq!(game.place_ship(), Ok(()));
    assert_eq!(game.set_state_active(), Err(ErrorKind::InvalidLifecycle));
}

#[test]
fn hit_then_sink_ends_the_game() {
    let mut game = game_with_ship_at_3_3(vec![2]);
    assert!(game.active_player_placed_all_ships());
    assert_eq!(game.set_state_active(), Ok(()));
    assert!(game.is_state_active());
    assert_eq!(game.turn(), 0);
    assert!(game.is_player_selecting_space());
    // The computer (player 1) fires at the human's ship.
    game.switch_active_player();
    assert_eq!(game.turn(), 1);
    assert!(!game.is_player_selecting_space());
    assert_eq!(game.select_space(&[3, 3]), Ok(()));
    let human = game.inactive_player();
    assert!(human.space(&[3, 3]).is_hit());
    assert!(human.ships()[0].is_active());
    assert!(game.is_state_active());
    assert_eq!(game.get_winner(), None);

    assert_eq!(game.select_space(&[3, 3]), Err(ErrorKind::AlreadyChecked));
    assert_eq!(game.select_space(&[10, 3]), Err(ErrorKind::OutOfBounds));

    assert_eq!(game.select_space(&[3, 4]), Ok(()));
    assert!(game.inactive_player().ships()[0].is_sunk());
    assert!(game.inactive_player().all_ships_sunk());
    assert!(game.is_state_complete());
    assert_eq!(game.turn(), 1);
    assert_eq!(game.get_winner(), Some(1));
    game.switch_active_player();
    assert_eq!(game.get_winner(), Some(1));
    assert_eq!(game.select_space(&[0, 0]), Err(ErrorKind::InvalidLifecycle));
}

#[test]
fn sinking_one_of_two_ships_keeps_playing() {
    let mut game = game_with_ship_at_3_3(vec![2, 2]);
    assert!(game.is_state_placement());
    assert_eq!(game.set_placement_ship(vec![[7, 7], [8, 7]]), Ok(()));
    assert_eq!(game.place_ship(), Ok(()));
    assert_eq!(game.set_state_active(), Ok(()));
    game.switch_active_player();
    assert_eq!(game.select_space(&[3, 3]), Ok(()));
    assert_eq!(game.select_space(&[3, 4]), Ok(()));
    assert!(game.inactive_player().ships()[0].is_sunk());
    assert!(game.is_state_active());
    assert_eq!(game.select_space(&[0, 0]), Ok(()));
    assert!(game.inactive_player().space(&[0, 0]).is_empty());
    assert!(game.is_state_active());
}

#[test]
fn cpu_suggestion_is_an_unchecked_cell() {
    let mut game = game_with_ship_at_3_3(vec![2]);
    assert_eq!(game.set_state_active(), Ok(()));
    game.switch_active_player();
    assert_eq!(game.select_space(&[3, 3]), Ok(()));
    for _ in 0..10 {
        let pick = game.suggested_check().unwrap();
        assert!([[3, 2], [4, 3], [3, 4], [2, 3]].contains(&pick));
    }
    assert_eq!(game.select_space(&[3, 4]), Ok(()));
    assert!(game.is_state_complete());
}

#[test]
fn suggested_check_is_none_on_a_full_grid() {
    let settings = GameSettings { spaces: [2, 1], ships: vec![1] };
    let mut game = Game::new(settings, StdRng::seed_from_u64(0)).unwrap();
    assert_eq!(game.place_ship(), Ok(()));
    game.switch_active_player();
    assert_eq!(game.set_state_active(), Ok(()));
    // Player 0 fires at the computer until its single ship sinks.
    let first = game.suggested_check().unwrap();
    assert_eq!(game.select_space(&first), Ok(()));
    if !game.is_state_complete() {
        let second = game.suggested_check().unwrap();
        assert_ne!(second, first);
        assert_eq!(game.select_space(&second), Ok(()));
    }
    assert!(game.is_state_complete());
    assert_eq!(game.get_winner(), Some(0));
    let rest: Vec<_> = game
        .inactive_player()
        .spaces()
        .iter()
        .filter(|s| s.is_unchecked())
        .collect();
    if rest.is_empty() {
        assert_eq!(game.suggested_check(), None);
    }
}

#[test]
fn single_ship_fleet_always_starts() {
    for seed in 0..20u64 {
        let settings = GameSettings { spaces: [3, 1], ships: vec![3] };
        let game = Game::new(settings, StdRng::seed_from_u64(seed)).unwrap();
        assert_eq!(game.inactive_player().ships().len(), 1);
        assert_eq!(game.inactive_player().ships()[0].pos().len(), 3);
        assert_eq!(game.active_player().placement_ship().unwrap().pos(), &[[0, 0], [1, 0], [2, 0]]);
        assert_eq!(game.active_player().placement_ship().unwrap().dir(), Direction::West);
    }
}
