//! The player's moves: uncovering a cell and placing or lifting a flag.
use crate::cascade::{as_u8_pair, reveal_neighbours, revealed_from, shows_number, truncated};
use crate::cells::CellSet;
use crate::input::Action;
use crate::flags::{counters_match, flag_counts, field_row, lemma_count_row_update, lemma_count_rows_update};
use crate::grid::{cell, is_grid};
use vstd::prelude::*;

verus! {

/// How a move went.
#[derive(Debug, Clone, Copy, PartialEq, Eq, Structural)]
pub enum GuessState {
    /// The uncovered cell held a mine.
    Exploded,
    /// The cell was uncovered already, or (when uncovering) flagged.
    AlreadySeen,
    /// The move was made.
    Success,
}

/// The outcome of uncovering `p`.
pub open spec fn guess_result(f: Seq<Vec<i8>>, seen: Set<(int, int)>, flags: Seq<Vec<bool>>, p: (int, int)) -> GuessState {
    if seen.contains(p) || cell(flags, p) {
        GuessState::AlreadySeen
    } else if cell(f, p) == -1 {
        GuessState::Exploded
    } else {
        GuessState::Success
    }
}

/// The uncovered cells after uncovering `p`: nothing changes for a cell
/// uncovered or flagged already, a mine is uncovered alone, any other cell
/// is uncovered together with all that its cascade reveals, each position
/// recorded with its coordinates taken as `u8`.
pub open spec fn seen_after_guess(
    f: Seq<Vec<i8>>,
    seen: Set<(int, int)>,
    flags: Seq<Vec<bool>>,
    p: (int, int),
) -> Set<(int, int)> {
    if seen.contains(p) || cell(flags, p) {
        seen
    } else if cell(f, p) == -1 {
        seen.insert(p)
    } else {
        seen.insert(p).union(truncated(revealed_from(f, p)))
    }
}

/// Uncovers the cell at row `x`, column `y`. A cell that is uncovered or
/// flagged already is left as it is (`AlreadySeen`); a mine is uncovered
/// and ends the game (`Exploded`); any other cell is uncovered together
/// with its cascade (`Success`).
pub fn handle_user_guess(x: u8, y: u8, field: &Vec<Vec<i8>>, seen: &mut CellSet, flags: &Vec<Vec<bool>>) -> (result: GuessState)
    requires
        !old(seen)@.contains((x as int, y as int)) ==> {
            &&& is_grid(field@)
            &&& x < field@.len()
            &&& y < field@[0].len()
            &&& x < flags@.len()
            &&& y < flags@[x as int].len()
        },
    ensures
        result == guess_result(field@, old(seen)@, flags@, (x as int, y as int)),
        final(seen)@ == seen_after_guess(field@, old(seen)@, flags@, (x as int, y as int)),
{
    if seen.contains(x, y) {
        return GuessState::AlreadySeen;
    }
    proof {
        assert(field@[x as int].len() == field@[0].len());
    }
    if flags[x as usize][y as usize] {
        return GuessState::AlreadySeen;
    } else if field[x as usize][y as usize] == -1 {
        seen.insert(x, y);
        return GuessState::Exploded;
    }
    seen.insert(x, y);
    reveal_neighbours(x as i32, y as i32, field, seen);
    GuessState::Success
}

/// Uncovering never covers a cell again: the uncovered cells only grow.
pub proof fn lemma_guess_keeps_seen(f: Seq<Vec<i8>>, seen: Set<(int, int)>, flags: Seq<Vec<bool>>, p: (int, int))
    ensures
        seen.subset_of(seen_after_guess(f, seen, flags, p)),
{
}

/// A successful uncovering uncovers no mine: on a board of at most 256
/// rows and columns, every cell that it adds shows a number.
pub proof fn lemma_success_uncovers_no_mine(
    f: Seq<Vec<i8>>,
    seen: Set<(int, int)>,
    flags: Seq<Vec<bool>>,
    p: (int, int),
    d: (int, int),
)
    requires
        f.len() <= 256,
        forall|r: int| 0 <= r < f.len() ==> #[trigger] f[r]@.len() <= 256,
        guess_result(f, seen, flags, p) == GuessState::Success,
        seen_after_guess(f, seen, flags, p).contains(d),
        !seen.contains(d),
    ensures
        cell(f, d) != -1,
{
    if d != p {
        assert(truncated(revealed_from(f, p)).contains(d));
        let e = choose|e: (int, int)| #[trigger] revealed_from(f, p).contains(e) && as_u8_pair(e) == d;
        assert(shows_number(f, e));
        assert(f[e.0]@.len() <= 256);
        assert(e == d);
    }
}

/// Uncovering a cell a second time finds it uncovered (or flagged) and
/// changes nothing.
pub proof fn lemma_guess_twice(f: Seq<Vec<i8>>, seen: Set<(int, int)>, flags: Seq<Vec<bool>>, p: (int, int))
    ensures
        guess_result(f, seen_after_guess(f, seen, flags, p), flags, p) == GuessState::AlreadySeen,
        seen_after_guess(f, seen_after_guess(f, seen, flags, p), flags, p) == seen_after_guess(f, seen, flags, p),
{
}

/// The position that a flag move at `(x, y)` looks up among the uncovered
/// cells: each coordinate taken as a `u8`.
pub open spec fn flag_position(x: usize, y: usize) -> (int, int) {
    ((x as u8) as int, (y as u8) as int)
}

/// A flag move at `(x, y)` can be made without a counter leaving the `u8`
/// range: on a covered cell, lifting needs a guessed mine (and a real one
/// on a mine) to count down, placing needs room to count up.
pub open spec fn flag_move_allowed(
    field: Seq<Vec<i8>>,
    seen: Set<(int, int)>,
    flags: Seq<Vec<bool>>,
    guessed_mines: u8,
    real_mines: u8,
    x: usize,
    y: usize,
) -> bool {
    !seen.contains(flag_position(x, y)) ==> {
        &&& x < flags.len()
        &&& y < flags[x as int].len()
        &&& x < field.len()
        &&& y < field[x as int].len()
        &&& flags[x as int]@[y as int] ==> guessed_mines >= 1 && (field[x as int]@[y as int] == -1
            ==> real_mines >= 1)
        &&& !flags[x as int]@[y as int] ==> guessed_mines < 255 && (field[x as int]@[y as int] == -1
            ==> real_mines < 255)
    }
}

/// What a flag move at `(x, y)` does: on an uncovered cell nothing
/// (`AlreadySeen`); on a covered cell it toggles the flag (`Success`),
/// counts a placed flag up and a lifted one down, and counts the real mines
/// likewise where the cell holds a mine.
pub open spec fn flag_move(
    field: Seq<Vec<i8>>,
    seen: Set<(int, int)>,
    flags: Seq<Vec<bool>>,
    new_flags: Seq<Vec<bool>>,
    guessed_mines: u8,
    new_guessed_mines: u8,
    real_mines: u8,
    new_real_mines: u8,
    x: usize,
    y: usize,
    result: GuessState,
) -> bool {
    if seen.contains(flag_position(x, y)) {
        &&& result == GuessState::AlreadySeen
        &&& new_flags == flags
        &&& new_guessed_mines == guessed_mines
        &&& new_real_mines == real_mines
    } else {
        let was_flagged = flags[x as int]@[y as int];
        let on_mine = field[x as int]@[y as int] == -1;
        &&& result == GuessState::Success
        &&& new_flags.len() == flags.len()
        &&& forall|r: int| 0 <= r < flags.len() && r != x ==> #[trigger] new_flags[r] == flags[r]
        &&& new_flags[x as int]@ == flags[x as int]@.update(y as int, !was_flagged)
        &&& new_guessed_mines == if was_flagged {
            guessed_mines - 1
        } else {
            guessed_mines + 1
        }
        &&& new_real_mines == if !on_mine {
            real_mines as int
        } else if was_flagged {
            real_mines - 1
        } else {
            real_mines + 1
        }
    }
}

/// Two flag moves on the same cell undo each other: the flags and both
/// counters are back where they were.
pub proof fn lemma_flag_twice_restores(
    field: Seq<Vec<i8>>,
    seen: Set<(int, int)>,
    flags: Seq<Vec<bool>>,
    flags1: Seq<Vec<bool>>,
    flags2: Seq<Vec<bool>>,
    guessed: u8,
    guessed1: u8,
    guessed2: u8,
    real_mines: u8,
    real_mines1: u8,
    real_mines2: u8,
    x: usize,
    y: usize,
    result1: GuessState,
    result2: GuessState,
)
    requires
        flag_move(field, seen, flags, flags1, guessed, guessed1, real_mines, real_mines1, x, y, result1),
        flag_move(field, seen, flags1, flags2, guessed1, guessed2, real_mines1, real_mines2, x, y, result2),
        !seen.contains(flag_position(x, y)) ==> x < flags.len() && y < flags[x as int]@.len(),
    ensures
        flags2.len() == flags.len(),
        forall|r: int| 0 <= r < flags.len() ==> #[trigger] flags2[r]@ == flags[r]@,
        guessed2 == guessed,
        real_mines2 == real_mines,
        result1 == result2,
{
    if !seen.contains(flag_position(x, y)) {
        assert(flags2[x as int]@ =~= flags[x as int]@);
        assert forall|r: int| 0 <= r < flags.len() implies #[trigger] flags2[r]@ == flags[r]@ by {
            if r != x {
                assert(flags1[r] == flags[r]);
                assert(flags2[r] == flags1[r]);
            }
        }
    }
}

/// Places a flag on the covered cell at row `x`, column `y`, or lifts the
/// flag that is there. Placing counts one more guessed mine, and one more
/// real mine where the cell holds a mine; lifting counts them down again.
/// A cell that is uncovered already is left alone (`AlreadySeen`). The
/// counters keep agreeing with the flags.
pub fn handle_place_flag(
    x: usize,
    y: usize,
    field: &Vec<Vec<i8>>,
    flags: &mut Vec<Vec<bool>>,
    guessed_mines: &mut u8,
    real_mines: &mut u8,
    seen: &CellSet,
) -> (result: GuessState)
    requires
        flag_move_allowed(field@, seen@, old(flags)@, *old(guessed_mines), *old(real_mines), x, y),
    ensures
        flag_move(
            field@,
            seen@,
            old(flags)@,
            final(flags)@,
            *old(guessed_mines),
            *final(guessed_mines),
            *old(real_mines),
            *final(real_mines),
            x,
            y,
            result,
        ),
        counters_match(old(flags)@, field@, *old(guessed_mines) as int, *old(real_mines) as int) ==> counters_match(
            final(flags)@,
            field@,
            *final(guessed_mines) as int,
            *final(real_mines) as int,
        ),
{
    if seen.contains(x as u8, y as u8) {
        return GuessState::AlreadySeen;
    }
    let ghost old_flags = flags@;
    let was_flagged = flags[x][y];
    if was_flagged {
        *guessed_mines = *guessed_mines - 1;
        if field[x][y] == -1 {
            *real_mines = *real_mines - 1;
        }
        flags[x][y] = false;
    } else {
        *guessed_mines = *guessed_mines + 1;
        if field[x][y] == -1 {
            *real_mines = *real_mines + 1;
        }
        flags[x][y] = true;
    }
    proof {
        let row = old_flags[x as int]@;
        let new_row = row.update(y as int, !was_flagged);
        assert(flags@[x as int]@ == new_row);
        lemma_count_row_update(row, Seq::empty(), false, row.len() as int, y as int, !was_flagged);
        lemma_count_row_update(row, field_row(field@, x as int), true, row.len() as int, y as int, !was_flagged);
        lemma_count_rows_update(old_flags, flags@, Seq::empty(), false, old_flags.len() as int, x as int);
        lemma_count_rows_update(old_flags, flags@, field@, true, old_flags.len() as int, x as int);
        assert(flag_counts(new_row, field_row(field@, x as int), true, y as int) == (!was_flagged && field@[x as int]@[y as int] == -1));
    }
    return GuessState::Success;
}

/// Makes the move the player chose at row `x`, column `y`: uncovers the
/// cell or places or lifts a flag there.
pub fn handle_open_or_flag(
    action: Action,
    x: u8,
    y: u8,
    field: &Vec<Vec<i8>>,
    seen: &mut CellSet,
    flags: &mut Vec<Vec<bool>>,
    guessed_mines: &mut u8,
    real_mines: &mut u8,
) -> (result: GuessState)
    requires
        action == Action::Reveal && !old(seen)@.contains((x as int, y as int)) ==> {
            &&& is_grid(field@)
            &&& x < field@.len()
            &&& y < field@[0].len()
            &&& x < old(flags)@.len()
            &&& y < old(flags)@[x as int].len()
        },
        action == Action::Flag ==> flag_move_allowed(
            field@,
            old(seen)@,
            old(flags)@,
            *old(guessed_mines),
            *old(real_mines),
            x as usize,
            y as usize,
        ),
    ensures
        action == Action::Reveal ==> {
            &&& result == guess_result(field@, old(seen)@, old(flags)@, (x as int, y as int))
            &&& final(seen)@ == seen_after_guess(field@, old(seen)@, old(flags)@, (x as int, y as int))
            &&& final(flags)@ == old(flags)@
            &&& *final(guessed_mines) == *old(guessed_mines)
            &&& *final(real_mines) == *old(real_mines)
        },
        action == Action::Flag ==> {
            &&& final(seen)@ == old(seen)@
            &&& flag_move(
                field@,
                old(seen)@,
                old(flags)@,
                final(flags)@,
                *old(guessed_mines),
                *final(guessed_mines),
                *old(real_mines),
                *final(real_mines),
                x as usize,
                y as usize,
                result,
            )
        },
        counters_match(old(flags)@, field@, *old(guessed_mines) as int, *old(real_mines) as int) ==> counters_match(
            final(flags)@,
            field@,
            *final(guessed_mines) as int,
            *final(real_mines) as int,
        ),
{
    match action {
        Action::Reveal => handle_user_guess(x, y, field, seen, flags),
        Action::Flag => handle_place_flag(x as usize, y as usize, field, flags, guessed_mines, real_mines, seen),
    }
}

} // verus!
