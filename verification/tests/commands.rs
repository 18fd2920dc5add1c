use termsweeper::Command;
use termsweeper::GameState;
use termsweeper::Termsweeper;

fn field(game: &Termsweeper, r: u8, c: u8) -> termsweeper::Field {
    *game.get_field((r, c))
}

#[test]
fn new_game_starts_blank() {
    let game = Termsweeper::new(4, 3, 5);
    assert_eq!(game.columns, 4);
    assert_eq!(game.rows, 3);
    assert_eq!(game.number_of_mines, 5);
    assert_eq!(game.fields_left_to_reveal, 0);
    assert_eq!(game.cursor, (0, 0));
    assert!(!game.initialized);
    assert_eq!(game.game_state, GameState::Playing);
    for r in 0..3u8 {
        for c in 0..4u8 {
            let f = field(&game, r, c);
            assert!(!f.revealed && !f.marked && !f.is_mine);
            assert_eq!(f.adjacent_mines, 0);
        }
    }
}

#[test]
fn default_game_has_standard_dimensions() {
    let game = Termsweeper::default();
    assert_eq!(game.columns, 45);
    assert_eq!(game.rows, 18);
    assert_eq!(game.number_of_mines, 75);
    assert!(!game.initialized);
}

#[test]
fn moving_past_any_edge_is_a_no_op() {
    let mut game = Termsweeper::new(2, 2, 0);
    assert!(!game.move_cursor_left());
    assert_eq!(game.cursor, (0, 0));
    assert!(!game.move_cursor_up());
    assert_eq!(game.cursor, (0, 0));
    assert!(game.move_cursor_down());
    assert!(game.move_cursor_right());
    assert_eq!(game.cursor, (1, 1));
    assert!(!game.move_cursor_down());
    assert_eq!(game.cursor, (1, 1));
    assert!(!game.move_cursor_right());
    assert_eq!(game.cursor, (1, 1));
    assert!(game.move_cursor_up());
    assert!(game.move_cursor_left());
    assert_eq!(game.cursor, (0, 0));
}

#[test]
fn marking_toggles_and_marking_twice_restores() {
    let mut game = Termsweeper::new(3, 3, 0);
    assert!(game.toggle_mark());
    assert!(field(&game, 0, 0).marked);
    assert!(game.toggle_mark());
    assert!(!field(&game, 0, 0).marked);
}

#[test]
fn marking_a_revealed_cell_is_a_no_op() {
    let mut game = Termsweeper::new(3, 3, 1);
    game.initialize_with_picks(&vec![0]);
    assert!(game.reveal_cell());
    assert!(field(&game, 0, 0).revealed);
    assert!(!game.toggle_mark());
    assert!(!field(&game, 0, 0).marked);
}

#[test]
fn revealing_a_marked_cell_is_a_no_op() {
    let mut game = Termsweeper::new(3, 3, 1);
    game.initialize_with_picks(&vec![0]);
    assert!(game.toggle_mark());
    assert!(!game.reveal_cell());
    assert!(!field(&game, 0, 0).revealed);
    assert_eq!(game.game_state, GameState::Playing);
    // Unmark and the reveal goes through.
    assert!(game.toggle_mark());
    assert!(game.reveal_cell());
    assert!(field(&game, 0, 0).revealed);
}

#[test]
fn revealing_an_already_revealed_cell_is_a_no_op() {
    let mut game = Termsweeper::new(3, 3, 1);
    game.initialize_with_picks(&vec![0]);
    assert!(game.reveal_cell());
    let left_before = game.fields_left_to_reveal;
    assert!(!game.reveal_cell());
    assert_eq!(game.fields_left_to_reveal, left_before);
}

#[test]
fn revealing_a_marked_cell_before_the_first_reveal_places_no_mines() {
    let mut game = Termsweeper::new(4, 4, 3);
    assert!(game.toggle_mark());
    assert!(!game.reveal_cell());
    // A silent no-op: no initialization, no mines, nothing shown.
    assert!(!game.initialized);
    assert_eq!(game.fields_left_to_reveal, 0);
    assert!(!field(&game, 0, 0).revealed);
    for r in 0..4u8 {
        for c in 0..4u8 {
            assert!(!field(&game, r, c).is_mine);
            assert!(!field(&game, r, c).revealed);
        }
    }
    // Unmarked, the next reveal places the mines and acts; the safe zone
    // around the cursor stays clean, so it cannot lose.
    assert!(game.toggle_mark());
    assert!(game.reveal_cell());
    assert!(game.initialized);
    assert_eq!(game.number_of_mines, 3);
    assert!(field(&game, 0, 0).revealed);
    assert!(game.game_state != GameState::GameOver);
}

#[test]
fn repeated_initialization_changes_nothing() {
    let mut game = Termsweeper::new(3, 3, 1);
    game.initialize_with_picks(&vec![0]);
    assert!(game.initialized);
    assert!(field(&game, 0, 2).is_mine);
    // Placement never repeats within a match: a second call, with different
    // picks, leaves the game exactly as it was.
    game.initialize_with_picks(&vec![3]);
    assert!(field(&game, 0, 2).is_mine);
    assert_eq!(game.number_of_mines, 1);
    for r in 0..3u8 {
        for c in 0..3u8 {
            if (r, c) != (0, 2) {
                assert!(!field(&game, r, c).is_mine);
            }
        }
    }
}

#[test]
fn commands_dispatch_to_the_matching_operation() {
    let mut game = Termsweeper::new(3, 3, 0);
    assert!(game.handle_event(Command::MoveDown));
    assert_eq!(game.cursor, (1, 0));
    assert!(game.handle_event(Command::MoveRight));
    assert_eq!(game.cursor, (1, 1));
    assert!(game.handle_event(Command::MoveUp));
    assert_eq!(game.cursor, (0, 1));
    assert!(game.handle_event(Command::MoveLeft));
    assert_eq!(game.cursor, (0, 0));
    assert!(game.handle_event(Command::ToggleMark));
    assert!(field(&game, 0, 0).marked);
    assert!(game.handle_event(Command::ToggleMark));
    assert!(game.handle_event(Command::Reveal));
    assert_eq!(game.game_state, GameState::Won);
}

#[test]
fn terminal_states_accept_no_commands() {
    let mut game = Termsweeper::new(3, 3, 0);
    assert!(game.handle_event(Command::Reveal));
    assert_eq!(game.game_state, GameState::Won);
    assert!(!game.handle_event(Command::MoveDown));
    assert_eq!(game.cursor, (0, 0));
    assert!(!game.handle_event(Command::ToggleMark));
    assert!(!game.handle_event(Command::Reveal));

    // A lost match behaves the same.
    let mut lost = Termsweeper::new(3, 3, 1);
    lost.initialize_with_picks(&vec![0]);
    assert!(lost.get_field((0, 2)).is_mine);
    assert!(lost.move_cursor_right());
    assert!(lost.move_cursor_right());
    assert!(lost.reveal_cell());
    assert_eq!(lost.game_state, GameState::GameOver);
    assert!(!lost.handle_event(Command::MoveLeft));
    assert_eq!(lost.cursor, (0, 2));
}

#[test]
fn stale_marks_survive_a_reveal_of_the_board() {
    // Mark a cell, then lose elsewhere: the mark is still set on the now
    // revealed cell, and play is over.
    let mut game = Termsweeper::new(3, 3, 1);
    game.initialize_with_picks(&vec![0]);
    assert!(game.move_cursor_down());
    assert!(game.toggle_mark());
    assert!(game.move_cursor_up());
    assert!(game.move_cursor_right());
    assert!(game.move_cursor_right());
    assert!(game.reveal_cell());
    assert_eq!(game.game_state, GameState::GameOver);
    let f = field(&game, 1, 0);
    assert!(f.revealed && f.marked);
}
