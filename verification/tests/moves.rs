use minesweeper::cascade::reveal_neighbours;
use minesweeper::cells::CellSet;
use minesweeper::game::{handle_place_flag, handle_user_guess};
use minesweeper::grid::get_neighbours;

fn set_of(cells: &[(u8, u8)]) -> CellSet {
    let mut set = CellSet::new();
    for &(x, y) in cells {
        set.insert(x, y);
    }
    set
}

#[test]
fn not_showing_flag_test() {
    let mut field: Vec<Vec<i8>> = vec![vec![0i8; 10]; 10];
    field[7][8] = -1;
    field[6][7] = 1;
    field[6][8] = 1;
    field[6][9] = 1;
    field[7][7] = 1;
    field[7][9] = 1;
    field[8][7] = 1;
    field[8][8] = 1;
    field[8][9] = 1;
    let mut seen = CellSet::new();
    let mut flags: Vec<Vec<bool>> = vec![vec![false; 10]; 10];
    let mut guesses: u8 = 0;
    let mut real: u8 = 0;

    handle_user_guess(5, 5, &field, &mut seen, &flags);
    assert!(!seen.contains(7, 9));
    assert!(!seen.contains(7, 8));

    let mut expected_flags: Vec<Vec<bool>> = vec![vec![false; 10]; 10];
    expected_flags[7][8] = true;
    handle_place_flag(7, 8, &field, &mut flags, &mut guesses, &mut real, &seen);
    assert_eq!(expected_flags, flags);
}

#[test]
fn reveal_neighbours_basic_test() {
    let dummy_field: Vec<Vec<i8>> = vec![vec![1, 2, 3], vec![4, 0, 5], vec![6, 7, 8]];
    let mut dummy_seen = CellSet::new();
    let expected = set_of(&[(0, 0), (1, 0), (2, 0), (0, 1), (2, 1), (0, 2), (1, 2), (2, 2)]);

    reveal_neighbours(1, 1, &dummy_field, &mut dummy_seen);
    assert_eq!(dummy_seen, expected);
}

#[test]
fn reveal_neighbours_cascade_test() {
    let dummy_field: Vec<Vec<i8>> = vec![
        vec![1, 1, 1, 1, 1],
        vec![1, 1, 0, 1, 1],
        vec![1, 0, 1, 0, 1],
        vec![1, 1, 0, 1, 1],
        vec![1, 1, 1, 1, 1],
    ];
    let mut dummy_seen = CellSet::new();
    let expected = set_of(&[
        (1, 0), (2, 0), (3, 0),
        (0, 1), (1, 1), (2, 1), (3, 1), (4, 1),
        (0, 2), (1, 2), (2, 2), (3, 2), (4, 2),
        (0, 3), (1, 3), (2, 3), (3, 3), (4, 3),
        (1, 4), (2, 4), (3, 4),
    ]);

    reveal_neighbours(2, 2, &dummy_field, &mut dummy_seen);
    assert_eq!(dummy_seen, expected);
}

#[test]
fn reveal_neighbours_cascade_inverse_test() {
    let dummy_field: Vec<Vec<i8>> = vec![
        vec![1, 1, 1, 1, 1],
        vec![1, 1, 1, 1, 1],
        vec![1, 1, 1, 1, 1],
        vec![1, 1, 1, 1, 1],
        vec![1, 1, 1, 1, 1],
    ];
    let mut dummy_seen = CellSet::new();
    let expected = set_of(&[(1, 1), (2, 1), (3, 1), (1, 2), (3, 2), (1, 3), (2, 3), (3, 3)]);

    reveal_neighbours(2, 2, &dummy_field, &mut dummy_seen);
    assert_eq!(dummy_seen, expected);
}

#[test]
fn reveal_neighbours_hide_mines_basic_test() {
    let dummy_field: Vec<Vec<i8>> = vec![
        vec![1, 1, 1, 1, 1],
        vec![1, -1, -1, -1, 1],
        vec![1, -1, 1, -1, 1],
        vec![1, -1, -1, -1, 1],
        vec![1, 1, 1, 1, 1],
    ];
    let mut dummy_seen = CellSet::new();
    let expected = CellSet::new();
    reveal_neighbours(2, 2, &dummy_field, &mut dummy_seen);
    assert_eq!(dummy_seen, expected);
}

#[test]
fn reveal_neighbours_hidemines_cascade_test() {
    let dummy_field: Vec<Vec<i8>> = vec![
        vec![1, 1, -1, 1, 1],
        vec![1, 1, 0, 1, 1],
        vec![-1, 0, 1, 0, -1],
        vec![1, 1, 0, 1, 1],
        vec![1, 1, -1, 1, 1],
    ];
    let mut dummy_seen = CellSet::new();
    let expected = set_of(&[
        (1, 0), (3, 0),
        (0, 1), (1, 1), (2, 1), (3, 1), (4, 1),
        (1, 2), (2, 2), (3, 2),
        (0, 3), (1, 3), (2, 3), (3, 3), (4, 3),
        (1, 4), (3, 4),
    ]);

    reveal_neighbours(2, 2, &dummy_field, &mut dummy_seen);
    assert_eq!(dummy_seen, expected);
}

#[test]
fn get_neighbours_basic_test() {
    let dummy_vec: Vec<Vec<i8>> = vec![vec![1, 2, 3], vec![4, 0, 5], vec![6, 7, 8]];

    let result = get_neighbours(1, 1, &dummy_vec);
    assert_eq!(result, [1, 2, 3, 4, 5, 6, 7, 8]);
}

#[test]
fn get_neighbours_outofbounds_upper() {
    let dummy_vec: Vec<Vec<i8>> = vec![vec![1, 0, 2], vec![3, 4, 5], vec![-1, -1, -1]];

    let result = get_neighbours(0, 1, &dummy_vec);
    assert_eq!(result, [-2, -2, -2, 1, 2, 3, 4, 5]);
}

#[test]
fn get_neighbours_outofbounds_left() {
    let dummy_vec: Vec<Vec<i8>> = vec![vec![1, 2, 8], vec![0, 3, 8], vec![4, 5, 8]];

    let result = get_neighbours(1, 0, &dummy_vec);
    assert_eq!(result, [-2, 1, 2, -2, 3, -2, 4, 5]);
}

#[test]
fn get_neighbours_outofbounds_right() {
    let dummy_vec: Vec<Vec<i8>> = vec![vec![8, 1, 2], vec![8, 3, 0], vec![8, 4, 5]];

    let result = get_neighbours(1, 2, &dummy_vec);
    assert_eq!(result, [1, 2, -2, 3, -2, 4, 5, -2]);
}

#[test]
fn get_neighbours_outofbounds_lower() {
    let dummy_vec: Vec<Vec<i8>> = vec![vec![8, 8, 8], vec![1, 2, 3], vec![4, 0, 5]];

    let result = get_neighbours(2, 1, &dummy_vec);
    assert_eq!(result, [1, 2, 3, 4, 5, -2, -2, -2]);
}
