use termsweeper::GameState;
use termsweeper::Termsweeper;

fn move_to(game: &mut Termsweeper, row: u8, column: u8) {
    while game.cursor.0 < row {
        assert!(game.move_cursor_down());
    }
    while game.cursor.1 < column {
        assert!(game.move_cursor_right());
    }
    assert_eq!(game.cursor, (row, column));
}

fn all_revealed(game: &Termsweeper) -> bool {
    for r in 0..game.rows {
        for c in 0..game.columns {
            if !game.get_field((r, c)).revealed {
                return false;
            }
        }
    }
    true
}

fn neighbors(rows: u8, columns: u8, r: u8, c: u8) -> Vec<(u8, u8)> {
    let mut out = Vec::new();
    for dr in -1i16..=1 {
        for dc in -1i16..=1 {
            if dr == 0 && dc == 0 {
                continue;
            }
            let nr = r as i16 + dr;
            let nc = c as i16 + dc;
            if nr >= 0 && nr < rows as i16 && nc >= 0 && nc < columns as i16 {
                out.push((nr as u8, nc as u8));
            }
        }
    }
    out
}

/// The reference placement the engine must match: enumerate the eligible
/// cells row-major (grid minus the safe zone), then repeatedly swap-remove at
/// `picks[i] % remaining`.
fn expected_mines(rows: u8, columns: u8, origin: (u8, u8), requested: u16, picks: &[usize]) -> Vec<(u8, u8)> {
    let safe = {
        let mut s = neighbors(rows, columns, origin.0, origin.1);
        s.push(origin);
        s
    };
    let mut eligible: Vec<(u8, u8)> = Vec::new();
    for r in 0..rows {
        for c in 0..columns {
            if !safe.contains(&(r, c)) {
                eligible.push((r, c));
            }
        }
    }
    let count = std::cmp::min(requested as usize, eligible.len());
    let mut mines = Vec::new();
    for i in 0..count {
        let raw = if i < picks.len() { picks[i] } else { 0 };
        let j = raw % eligible.len();
        mines.push(eligible.swap_remove(j));
    }
    mines
}

fn lcg_picks(seed: u64, n: usize, pool: usize) -> Vec<usize> {
    let mut x = seed;
    let mut v = Vec::new();
    for i in 0..n {
        x = x.wrapping_mul(6364136223846793005).wrapping_add(1442695040888963407);
        let bound = (pool - i) as u64;
        v.push((x % bound) as usize);
    }
    v
}

#[test]
fn random_first_reveal_keeps_the_safe_zone_clean() {
    // The real random draws: the first reveal places the mines and can never
    // hit one, and the cursor's whole neighbourhood stays mine-free.
    let mut game = Termsweeper::new(6, 6, 5);
    move_to(&mut game, 2, 2);
    let changed = game.reveal_cell();
    assert!(changed);
    assert!(game.initialized);
    assert_eq!(game.number_of_mines, 5);
    assert!(game.game_state != GameState::GameOver);
    assert!(game.get_field((2, 2)).revealed);
    assert!(!game.get_field((2, 2)).is_mine);
    for n in neighbors(6, 6, 2, 2) {
        assert!(!game.get_field(n).is_mine);
    }
    let mut count = 0;
    for r in 0..6u8 {
        for c in 0..6u8 {
            if game.get_field((r, c)).is_mine {
                count += 1;
            }
        }
    }
    assert_eq!(count, 5);
}

#[test]
fn five_by_five_no_mines_reveals_everything() {
    let mut game = Termsweeper::new(5, 5, 0);
    assert_eq!(game.cursor, (0, 0));
    let changed = game.reveal_cell();
    assert!(changed);
    assert_eq!(game.game_state, GameState::Won);
    assert_eq!(game.fields_left_to_reveal, 0);
    assert!(all_revealed(&game));
}

#[test]
fn three_by_three_request_exceeding_clamp_wins_immediately() {
    let mut game = Termsweeper::new(3, 3, 8);
    move_to(&mut game, 1, 1);
    let changed = game.reveal_cell();
    assert!(changed);
    // The safe zone around (1, 1) covers all nine cells, so the request is
    // clamped to zero mines and the single reveal wins the match.
    assert_eq!(game.number_of_mines, 0);
    assert_eq!(game.game_state, GameState::Won);
    assert_eq!(game.fields_left_to_reveal, 0);
    assert!(all_revealed(&game));
}

#[test]
fn fixed_seed_placement_matches_reference() {
    // 10x10, 10 mines, origin (5, 5): 100 - 1 - 8 = 91 eligible cells.
    let picks = lcg_picks(42, 10, 91);
    let mut game = Termsweeper::new(10, 10, 10);
    move_to(&mut game, 5, 5);
    game.initialize_with_picks(&picks);
    assert!(game.initialized);
    assert_eq!(game.number_of_mines, 10);
    assert_eq!(game.fields_left_to_reveal, 90);

    let golden = expected_mines(10, 10, (5, 5), 10, &picks);
    assert_eq!(golden.len(), 10);
    let mut seen = 0;
    for r in 0..10u8 {
        for c in 0..10u8 {
            let expect = golden.contains(&(r, c));
            assert_eq!(game.get_field((r, c)).is_mine, expect, "cell ({}, {})", r, c);
            if expect {
                seen += 1;
            }
        }
    }
    assert_eq!(seen, 10);

    // The same seed reproduces the same layout.
    let mut again = Termsweeper::new(10, 10, 10);
    move_to(&mut again, 5, 5);
    again.initialize_with_picks(&lcg_picks(42, 10, 91));
    for r in 0..10u8 {
        for c in 0..10u8 {
            assert_eq!(game.get_field((r, c)).is_mine, again.get_field((r, c)).is_mine);
        }
    }

    // Revealing the safe origin cannot hit a mine.
    let changed = game.reveal_cell();
    assert!(changed);
    assert!(game.get_field((5, 5)).revealed);
    assert!(game.game_state != GameState::GameOver);
}

#[test]
fn clamp_keeps_safe_zone_free_and_bounds_mines() {
    // A corner origin on 9x9 has 3 neighbours: at most 81 - 1 - 3 = 77 mines.
    let picks = lcg_picks(7, 77, 77);
    let mut game = Termsweeper::new(9, 9, 200);
    game.initialize_with_picks(&picks);
    assert_eq!(game.number_of_mines, 77);
    assert!(!game.get_field((0, 0)).is_mine);
    for n in neighbors(9, 9, 0, 0) {
        assert!(!game.get_field(n).is_mine);
    }
    let mut count = 0;
    for r in 0..9u8 {
        for c in 0..9u8 {
            if game.get_field((r, c)).is_mine {
                count += 1;
            }
        }
    }
    assert_eq!(count, 77);
}

#[test]
fn adjacency_counts_match_brute_force() {
    let picks = lcg_picks(11, 12, 8 * 8 - 9);
    let mut game = Termsweeper::new(8, 8, 12);
    move_to(&mut game, 3, 4);
    game.initialize_with_picks(&picks);
    for r in 0..8u8 {
        for c in 0..8u8 {
            let mut expect = 0;
            for n in neighbors(8, 8, r, c) {
                if game.get_field(n).is_mine {
                    expect += 1;
                }
            }
            assert_eq!(game.get_field((r, c)).adjacent_mines, expect, "cell ({}, {})", r, c);
        }
    }
}

#[test]
fn revealing_a_mine_ends_the_match_and_shows_all() {
    // 3x3, origin (0, 0): the safe zone is {(0,0),(0,1),(1,0),(1,1)}; the
    // eligible cells row-major are (0,2),(1,2),(2,0),(2,1),(2,2), so pick 0
    // puts the single mine at (0, 2).
    let mut game = Termsweeper::new(3, 3, 1);
    game.initialize_with_picks(&vec![0]);
    assert!(game.get_field((0, 2)).is_mine);
    move_to(&mut game, 0, 2);
    let changed = game.reveal_cell();
    assert!(changed);
    assert_eq!(game.game_state, GameState::GameOver);
    assert!(all_revealed(&game));
}

#[test]
fn flood_fill_boundary_has_positive_counts() {
    // Same fixed layout: one mine at (0, 2); revealing the zero-adjacency
    // origin floods the whole safe region.
    let mut game = Termsweeper::new(3, 3, 1);
    game.initialize_with_picks(&vec![0]);
    let changed = game.reveal_cell();
    assert!(changed);
    // Every revealed zero-adjacency safe cell has all its neighbours
    // revealed, so boundary cells carry a positive count or are mines.
    for r in 0..3u8 {
        for c in 0..3u8 {
            let f = *game.get_field((r, c));
            if f.revealed && !f.is_mine && f.adjacent_mines == 0 {
                for n in neighbors(3, 3, r, c) {
                    assert!(game.get_field(n).revealed);
                }
            }
        }
    }
    // Here the flood wins the match outright: all 8 safe cells connect.
    assert_eq!(game.game_state, GameState::Won);
    assert_eq!(game.fields_left_to_reveal, 0);
}

#[test]
fn counter_reaching_zero_wins_and_reveals_all() {
    // 4x4 with mines at (0,2) and (3,3): picks [0, 0] remove the first
    // eligible cell (0,2), whose slot the swap fills with the last one (3,3).
    let mut game = Termsweeper::new(4, 4, 2);
    game.initialize_with_picks(&vec![0, 0]);
    assert!(game.get_field((0, 2)).is_mine);
    assert!(game.get_field((3, 3)).is_mine);
    // The flood from the zero-adjacency origin reveals everything except the
    // three cells cut off by positive counts: (0,3), (1,3), (2,3).
    assert!(game.reveal_cell());
    assert_eq!(game.game_state, GameState::Playing);
    assert_eq!(game.fields_left_to_reveal, 3);
    // Reveal them one by one; the last reveal drops the counter to zero,
    // wins the match, and shows the whole board.
    move_to(&mut game, 0, 3);
    assert!(game.reveal_cell());
    assert_eq!(game.fields_left_to_reveal, 2);
    assert_eq!(game.game_state, GameState::Playing);
    move_to(&mut game, 1, 3);
    assert!(game.reveal_cell());
    assert_eq!(game.fields_left_to_reveal, 1);
    assert_eq!(game.game_state, GameState::Playing);
    move_to(&mut game, 2, 3);
    assert!(game.reveal_cell());
    assert_eq!(game.fields_left_to_reveal, 0);
    assert_eq!(game.game_state, GameState::Won);
    assert!(all_revealed(&game));
}
