use minesweeper::cascade::reveal_neighbours;
use minesweeper::cells::CellSet;
use minesweeper::game::{handle_open_or_flag, handle_place_flag, handle_user_guess, GuessState};
use minesweeper::grid::{get_neighbours, translate_to_grid};
use minesweeper::input::{parse_action, parse_u8, valid_coordinate, valid_field_size, valid_mine_count, Action};
use minesweeper::mines::{lay_mines, update_neighbours};
use minesweeper::placement::{generate_mines, mine_candidates, select_mines, MineRng};
use minesweeper::play::Game;
use minesweeper::render::{render_field, render_opening};

fn text(chars: &[char]) -> String {
    chars.iter().collect()
}

fn mines_around(field: &Vec<Vec<i8>>, r: usize, c: usize) -> i8 {
    let mut count = 0;
    for dr in -1i32..=1 {
        for dc in -1i32..=1 {
            if dr == 0 && dc == 0 {
                continue;
            }
            let nr = r as i32 + dr;
            let nc = c as i32 + dc;
            if nr >= 0 && nc >= 0 && (nr as usize) < field.len() && (nc as usize) < field[0].len() {
                if field[nr as usize][nc as usize] == -1 {
                    count += 1;
                }
            }
        }
    }
    count
}

#[test]
fn cell_set_insert_and_contains() {
    let mut set = CellSet::new();
    assert!(!set.contains(3, 4));
    assert!(set.insert(3, 4));
    assert!(!set.insert(3, 4));
    assert!(set.contains(3, 4));
    assert!(!set.contains(4, 3));
    assert!(set.insert(255, 255));
    assert!(set.contains(255, 255));
}

#[test]
fn translate_to_grid_directions() {
    let expected = [(-1, -1), (-1, 0), (-1, 1), (0, -1), (0, 1), (1, -1), (1, 0), (1, 1)];
    for i in 0..8 {
        assert_eq!(translate_to_grid(i), expected[i as usize]);
    }
}

#[test]
fn get_neighbours_corner_reads_minus_two() {
    let field: Vec<Vec<i8>> = vec![vec![0, 1], vec![2, 3]];
    assert_eq!(get_neighbours(0, 0, &field), [-2, -2, -2, -2, 1, -2, 2, 3]);
    assert_eq!(get_neighbours(1, 1, &field), [0, 1, -2, 2, -2, -2, -2, -2]);
}

#[test]
fn reveal_keeps_earlier_cells() {
    let field: Vec<Vec<i8>> = vec![vec![0, 0, 0], vec![0, 0, 0], vec![0, 0, 0]];
    let mut seen = CellSet::new();
    seen.insert(9, 9);
    reveal_neighbours(0, 0, &field, &mut seen);
    let mut expected = CellSet::new();
    expected.insert(9, 9);
    for r in 0..3 {
        for c in 0..3 {
            expected.insert(r, c);
        }
    }
    assert_eq!(seen, expected);
}

#[test]
fn reveal_skips_minus_two_cells() {
    let field: Vec<Vec<i8>> = vec![vec![0, -2], vec![1, 1]];
    let mut seen = CellSet::new();
    reveal_neighbours(0, 0, &field, &mut seen);
    let mut expected = CellSet::new();
    expected.insert(1, 0);
    expected.insert(1, 1);
    assert_eq!(seen, expected);
}

#[test]
fn guess_on_mine_explodes() {
    let field: Vec<Vec<i8>> = vec![vec![-1, 1], vec![1, 1]];
    let flags = vec![vec![false; 2]; 2];
    let mut seen = CellSet::new();
    assert_eq!(handle_user_guess(0, 0, &field, &mut seen, &flags), GuessState::Exploded);
    let mut expected = CellSet::new();
    expected.insert(0, 0);
    assert_eq!(seen, expected);
    assert_eq!(handle_user_guess(0, 0, &field, &mut seen, &flags), GuessState::AlreadySeen);
    assert_eq!(seen, expected);
}

#[test]
fn guess_on_flag_is_refused() {
    let field: Vec<Vec<i8>> = vec![vec![0, 1], vec![1, -1]];
    let mut flags = vec![vec![false; 2]; 2];
    flags[0][0] = true;
    let mut seen = CellSet::new();
    assert_eq!(handle_user_guess(0, 0, &field, &mut seen, &flags), GuessState::AlreadySeen);
    assert_eq!(seen, CellSet::new());
}

#[test]
fn guess_on_number_uncovers_only_it() {
    let field: Vec<Vec<i8>> = vec![vec![0, 1], vec![1, -1]];
    let flags = vec![vec![false; 2]; 2];
    let mut seen = CellSet::new();
    assert_eq!(handle_user_guess(0, 1, &field, &mut seen, &flags), GuessState::Success);
    let mut expected = CellSet::new();
    expected.insert(0, 1);
    expected.insert(0, 0);
    expected.insert(1, 0);
    assert_eq!(seen, expected);
}

#[test]
fn flag_twice_restores() {
    let field: Vec<Vec<i8>> = vec![vec![-1, 1], vec![1, 1]];
    let mut flags = vec![vec![false; 2]; 2];
    let seen = CellSet::new();
    let (mut guessed, mut real) = (0u8, 0u8);
    assert_eq!(handle_place_flag(0, 0, &field, &mut flags, &mut guessed, &mut real, &seen), GuessState::Success);
    assert!(flags[0][0]);
    assert_eq!((guessed, real), (1, 1));
    assert_eq!(handle_place_flag(0, 1, &field, &mut flags, &mut guessed, &mut real, &seen), GuessState::Success);
    assert_eq!((guessed, real), (2, 1));
    assert_eq!(handle_place_flag(0, 0, &field, &mut flags, &mut guessed, &mut real, &seen), GuessState::Success);
    assert!(!flags[0][0]);
    assert_eq!((guessed, real), (1, 0));
}

#[test]
fn flag_on_uncovered_cell_is_refused() {
    let field: Vec<Vec<i8>> = vec![vec![0, 1], vec![1, -1]];
    let mut flags = vec![vec![false; 2]; 2];
    let mut seen = CellSet::new();
    seen.insert(0, 1);
    let (mut guessed, mut real) = (0u8, 0u8);
    assert_eq!(handle_place_flag(0, 1, &field, &mut flags, &mut guessed, &mut real, &seen), GuessState::AlreadySeen);
    assert_eq!(flags, vec![vec![false; 2]; 2]);
    assert_eq!((guessed, real), (0, 0));
}

#[test]
fn open_or_flag_dispatches() {
    let field: Vec<Vec<i8>> = vec![vec![0, 1], vec![1, -1]];
    let mut flags = vec![vec![false; 2]; 2];
    let mut seen = CellSet::new();
    let (mut guessed, mut real) = (0u8, 0u8);
    let r = handle_open_or_flag(Action::Flag, 1, 1, &field, &mut seen, &mut flags, &mut guessed, &mut real);
    assert_eq!(r, GuessState::Success);
    assert_eq!((guessed, real), (1, 1));
    let r = handle_open_or_flag(Action::Reveal, 1, 1, &field, &mut seen, &mut flags, &mut guessed, &mut real);
    assert_eq!(r, GuessState::AlreadySeen);
    let r = handle_open_or_flag(Action::Reveal, 0, 0, &field, &mut seen, &mut flags, &mut guessed, &mut real);
    assert_eq!(r, GuessState::Success);
    let mut expected = CellSet::new();
    expected.insert(0, 0);
    expected.insert(0, 1);
    expected.insert(1, 0);
    assert_eq!(seen, expected);
}

#[test]
fn update_neighbours_counts_around_point() {
    let mut field: Vec<Vec<i8>> = vec![vec![0, -1, 0], vec![0, -1, 0], vec![0, 0, 0]];
    update_neighbours(&mut field, 3, 3, &(1, 1));
    assert_eq!(field, vec![vec![1, -1, 1], vec![1, -1, 1], vec![1, 1, 1]]);
}

#[test]
fn update_neighbours_stays_in_box() {
    let mut field: Vec<Vec<i8>> = vec![vec![0, 0, 0], vec![0, 0, 0], vec![0, 0, 0]];
    update_neighbours(&mut field, 2, 2, &(1, 1));
    assert_eq!(field, vec![vec![1, 1, 0], vec![1, 0, 0], vec![0, 0, 0]]);
}

#[test]
fn lay_mines_counts_each_mine() {
    let mut field: Vec<Vec<i8>> = vec![vec![0; 3]; 3];
    lay_mines(&mut field, 3, 3, &vec![(0, 0), (2, 2)]);
    assert_eq!(field, vec![vec![-1, 1, 0], vec![1, 2, 1], vec![0, 1, -1]]);
}

#[test]
fn candidates_skip_first_cell() {
    assert_eq!(mine_candidates(2, 2, 0, 1), vec![(0, 0), (1, 0), (1, 1)]);
    assert_eq!(mine_candidates(1, 2, 5, 5), vec![(0, 0), (0, 1)]);
}

#[test]
fn select_mines_takes_draws_in_turn() {
    let picked = select_mines(vec![(0, 0), (1, 0), (1, 1)], &vec![2, 0]);
    assert_eq!(picked, vec![(1, 1), (0, 0)]);
}

#[test]
fn generate_mines_lays_counted_mines() {
    let mut field: Vec<Vec<i8>> = vec![vec![0; 12]; 10];
    generate_mines(&mut field, 12, 10, 30, 3, 4, &mut MineRng::new());
    let mines = field.iter().flatten().filter(|&&v| v == -1).count();
    assert_eq!(mines, 30);
    assert_ne!(field[3][4], -1);
    for r in 0..10 {
        for c in 0..12 {
            if field[r][c] != -1 {
                assert_eq!(field[r][c], mines_around(&field, r, c));
            }
        }
    }
}

#[test]
fn generate_mines_fills_all_but_first_cell() {
    let mut field: Vec<Vec<i8>> = vec![vec![0; 4]; 3];
    generate_mines(&mut field, 4, 3, 11, 1, 2, &mut MineRng::new());
    for r in 0..3 {
        for c in 0..4 {
            if (r, c) == (1, 2) {
                assert_eq!(field[r][c], 8);
            } else {
                assert_eq!(field[r][c], -1);
            }
        }
    }
}

#[test]
fn parse_u8_follows_from_str() {
    assert_eq!(parse_u8("42\n"), Some(42));
    assert_eq!(parse_u8("+7"), Some(7));
    assert_eq!(parse_u8("0255\r\n"), Some(255));
    assert_eq!(parse_u8("256"), None);
    assert_eq!(parse_u8("-1"), None);
    assert_eq!(parse_u8(""), None);
    assert_eq!(parse_u8("+"), None);
    assert_eq!(parse_u8(" 5"), None);
    assert_eq!(parse_u8("1 2"), None);
    for s in ["0", "9", "17", "+99", "300", "x", "12a", "\t"] {
        assert_eq!(parse_u8(s), s.trim_end().parse::<u8>().ok());
    }
}

#[test]
fn parse_action_words() {
    assert_eq!(parse_action("r\n"), Some(Action::Reveal));
    assert_eq!(parse_action("ReVeAl"), Some(Action::Reveal));
    assert_eq!(parse_action("FLAG  "), Some(Action::Flag));
    assert_eq!(parse_action("f"), Some(Action::Flag));
    assert_eq!(parse_action("fl"), None);
    assert_eq!(parse_action(" r"), None);
    assert_eq!(parse_action("x"), None);
    assert_eq!(parse_action(""), None);
}

#[test]
fn field_size_bounds() {
    assert!(!valid_field_size(2));
    assert!(valid_field_size(3));
    assert!(valid_field_size(99));
    assert!(!valid_field_size(100));
}

#[test]
fn coordinate_bounds() {
    assert!(valid_coordinate(0, 3));
    assert!(valid_coordinate(2, 3));
    assert!(!valid_coordinate(3, 3));
}

#[test]
fn random_draws_stay_below_bound() {
    let mut rng = MineRng::new();
    for bound in 1..50usize {
        assert!(rng.below(bound) < bound);
    }
}

#[test]
fn guess_on_seen_cell_reads_nothing() {
    let field: Vec<Vec<i8>> = vec![vec![0, 1], vec![1, -1]];
    let flags = vec![vec![false; 2]; 2];
    let mut seen = CellSet::new();
    seen.insert(9, 9);
    assert_eq!(handle_user_guess(9, 9, &field, &mut seen, &flags), GuessState::AlreadySeen);
}

#[test]
fn mine_count_bounds() {
    assert!(!valid_mine_count(0, 3, 3));
    assert!(valid_mine_count(1, 3, 3));
    assert!(valid_mine_count(8, 3, 3));
    assert!(!valid_mine_count(9, 3, 3));
    assert!(valid_mine_count(255, 20, 20));
}

#[test]
fn opening_text() {
    assert_eq!(text(&render_opening(3, 3)), "0: ? ? ? \n1: ? ? ? \n2: ? ? ? \n   - - - \n   0 1 2 \n");
    assert_eq!(
        text(&render_opening(2, 11)),
        "0:  ?  ?  ?  ?  ?  ?  ?  ?  ?  ?  ?  \n1:  ?  ?  ?  ?  ?  ?  ?  ?  ?  ?  ?  \n    -  -  -  -  -  -  -  -  -  -  -  \n    0  1  2  3  4  5  6  7  8  9  10 \n"
    );
}

#[test]
fn field_text_shows_cells() {
    let field: Vec<Vec<i8>> = vec![vec![-1, 1, 0], vec![1, 1, 0], vec![0, 0, 0]];
    let mut seen = CellSet::new();
    seen.insert(0, 0);
    seen.insert(1, 1);
    let mut flags = vec![vec![false; 3]; 3];
    flags[2][2] = true;
    assert_eq!(
        text(&render_field(&field, &seen, &flags)),
        "0: X ? ? \n1: ? 1 ? \n2: ? ? # \n   - - - \n   0 1 2 \n"
    );
}

#[test]
fn game_first_move_is_safe_and_loses_on_mine() {
    let (mut game, first) = Game::begin(5, 5, 24, 2, 2, &mut MineRng::new());
    assert_eq!(first, GuessState::Success);
    assert_eq!(
        text(&game.render()),
        "0: ? ? ? ? ? \n1: ? ? ? ? ? \n2: ? ? 8 ? ? \n3: ? ? ? ? ? \n4: ? ? ? ? ? \n   - - - - - \n   0 1 2 3 4 \n"
    );
    assert!(!game.is_over());
    assert!(game.move_allowed(Action::Flag, 0, 0));
    assert_eq!(game.play(Action::Flag, 0, 0), GuessState::Success);
    assert_eq!(game.guessed_mines(), 1);
    assert_eq!(game.remaining_mines(), 23);
    assert!(game.move_allowed(Action::Flag, 0, 0));
    assert_eq!(game.play(Action::Reveal, 2, 2), GuessState::AlreadySeen);
    assert_eq!(game.play(Action::Reveal, 0, 0), GuessState::AlreadySeen);
    assert!(!game.move_allowed(Action::Reveal, 5, 0));
    assert_eq!(game.play(Action::Reveal, 0, 1), GuessState::Exploded);
    assert!(game.is_over());
    assert!(!game.is_won());
}

#[test]
fn game_won_when_all_mines_flagged() {
    let (mut game, first) = Game::begin(3, 3, 8, 1, 1, &mut MineRng::new());
    assert_eq!(first, GuessState::Success);
    assert_eq!(game.no_mines(), 8);
    for r in 0..3u8 {
        for c in 0..3u8 {
            if (r, c) != (1, 1) {
                assert!(!game.is_over());
                assert_eq!(game.play(Action::Flag, r, c), GuessState::Success);
            }
        }
    }
    assert!(game.is_over());
    assert!(game.is_won());
    assert_eq!(game.play(Action::Flag, 1, 1), GuessState::AlreadySeen);
}

#[test]
fn game_uncovered_cells_hold_no_mine() {
    let (game, first) = Game::begin(9, 8, 10, 4, 4, &mut MineRng::new());
    assert_eq!(first, GuessState::Success);
    let shown: String = text(&game.render());
    assert!(!shown.contains('X'));
}
