//! A game in progress: the board, what the player has uncovered and
//! flagged, and the counters that decide when the game is won.
use crate::cascade::{lemma_truncated_small, revealed_from, shows_number};
use crate::cells::CellSet;
use crate::flags::{counters_match, flag_count, flagged_mine_count, lemma_flag_counted, lemma_no_flags};
use crate::game::{
    flag_move, flag_move_allowed, flag_position, guess_result, handle_open_or_flag, handle_user_guess,
    seen_after_guess, GuessState,
};
use crate::grid::{cell, is_grid};
use crate::input::Action;
use crate::mines::{adjacent_mines, in_box, valid_mines};
use crate::placement::{
    candidate_count, draw_bounds, generate_mines, is_mine_layout, lemma_layout_shows_counts, mines_from_draws, MineRng,
};
use crate::render::{field_text, flags_cover, render_field};
use vstd::prelude::*;

verus! {

/// A game: an `m` by `n` board of mines and numbers, the uncovered cells,
/// the flags, and the counts of flags placed and of flags on mines.
pub struct Game {
    field: Vec<Vec<i8>>,
    seen: CellSet,
    flags: Vec<Vec<bool>>,
    rows: u8,
    cols: u8,
    no_mines: u8,
    guessed_mines: u8,
    real_mines: u8,
    running: bool,
    mines: Ghost<Seq<(int, int)>>,
}

impl Game {
    /// The board: `-1` for a mine, else the number of mines around.
    pub closed spec fn board(&self) -> Seq<Vec<i8>> {
        self.field@
    }

    /// The uncovered cells.
    pub closed spec fn uncovered(&self) -> Set<(int, int)> {
        self.seen@
    }

    /// The flags.
    pub closed spec fn flag_grid(&self) -> Seq<Vec<bool>> {
        self.flags@
    }

    /// Where the mines lie.
    pub closed spec fn mine_cells(&self) -> Seq<(int, int)> {
        self.mines@
    }

    /// Number of rows.
    pub closed spec fn spec_rows(&self) -> int {
        self.rows as int
    }

    /// Number of columns.
    pub closed spec fn spec_cols(&self) -> int {
        self.cols as int
    }

    /// Number of mines on the board.
    pub closed spec fn spec_no_mines(&self) -> u8 {
        self.no_mines
    }

    /// Number of flags placed.
    pub closed spec fn spec_guessed_mines(&self) -> u8 {
        self.guessed_mines
    }

    /// Number of flags that lie on a mine.
    pub closed spec fn spec_real_mines(&self) -> u8 {
        self.real_mines
    }

    /// No mine has gone off yet.
    pub closed spec fn spec_running(&self) -> bool {
        self.running
    }

    /// What every game keeps: an `m` by `n` board with a flag entry per
    /// cell, `no_mines` distinct mines and around them the numbers they
    /// make, counters that agree with the flags, and, while no mine has gone
    /// off, no uncovered mine.
    pub closed spec fn wf(&self) -> bool {
        &&& self.board_wf()
        &&& self.running ==> forall|p: (int, int)| #[trigger]
            self.seen@.contains(p) ==> in_box(p, self.rows as int, self.cols as int) && !self.mines@.contains(p)
    }

    /// The board, flags and counters part of [`Self::wf`].
    pub closed spec fn board_wf(&self) -> bool {
        &&& self.rows >= 1
        &&& self.cols >= 1
        &&& is_grid(self.field@)
        &&& self.field@.len() == self.rows
        &&& self.field@[0]@.len() == self.cols
        &&& self.flags@.len() == self.rows
        &&& forall|r: int| 0 <= r < self.rows ==> #[trigger] self.flags@[r]@.len() == self.cols
        &&& counters_match(self.flags@, self.field@, self.guessed_mines as int, self.real_mines as int)
        &&& valid_mines(self.mines@, self.rows as int, self.cols as int)
        &&& self.mines@.len() == self.no_mines
        &&& forall|q: (int, int)|
            in_box(q, self.rows as int, self.cols as int) ==> #[trigger] cell(self.field@, q) as int == if self.mines@.contains(
                q,
            ) {
                -1
            } else {
                adjacent_mines(self.mines@.to_set(), q)
            }
    }

    /// While the game runs, every uncovered cell lies on the board and holds
    /// no mine.
    pub proof fn lemma_no_mine_uncovered(&self)
        requires
            self.wf(),
            self.spec_running(),
        ensures
            forall|p: (int, int)| #[trigger]
                self.uncovered().contains(p) ==> in_box(p, self.spec_rows(), self.spec_cols()) && !self.mine_cells().contains(p),
    {
    }

    /// Uncovering is always allowed on a cell of the board, uncovered,
    /// flagged or not: the only condition on it is that the cell lies on the
    /// board.
    pub proof fn lemma_reveal_allowed(&self, x: u8, y: u8)
        ensures
            self.spec_move_allowed(Action::Reveal, x, y) <==> (x < self.spec_rows() && y < self.spec_cols()),
    {
    }

    /// Lifting a flag never takes a counter below zero: a flag move on a
    /// flagged cell is always allowed.
    pub proof fn lemma_lifting_allowed(&self, x: u8, y: u8)
        requires
            self.wf(),
            x < self.spec_rows(),
            y < self.spec_cols(),
            self.flag_grid()[x as int]@[y as int],
        ensures
            self.spec_move_allowed(Action::Flag, x, y),
    {
        lemma_flag_counted(self.flags@, self.field@, x as int, y as int);
        assert(self.field@[x as int]@.len() == self.field@[0]@.len());
    }

    /// Uncovering `p` on a board where `p` is no mine adds only cells of the
    /// board that hold no mine.
    proof fn lemma_guess_adds_no_mine(&self, seen: Set<(int, int)>, p: (int, int), d: (int, int))
        requires
            self.board_wf(),
            in_box(p, self.rows as int, self.cols as int),
            guess_result(self.field@, seen, self.flags@, p) == GuessState::Success,
            seen_after_guess(self.field@, seen, self.flags@, p).contains(d),
            !seen.contains(d),
        ensures
            in_box(d, self.rows as int, self.cols as int),
            !self.mines@.contains(d),
    {
        lemma_truncated_small(self.field@, p);
        if d != p {
            assert(revealed_from(self.field@, p).contains(d));
            assert(shows_number(self.field@, d));
        }
        assert(cell(self.field@, d) != -1);
    }

    /// Every cell of the board shows `-1` if it holds a mine, and else the
    /// number of mines that touch it.
    pub proof fn lemma_board_counts(&self, q: (int, int))
        requires
            self.wf(),
            in_box(q, self.spec_rows(), self.spec_cols()),
        ensures
            cell(self.board(), q) as int == if self.mine_cells().contains(q) {
                -1
            } else {
                adjacent_mines(self.mine_cells().to_set(), q)
            },
            self.mine_cells().len() == self.spec_no_mines(),
            valid_mines(self.mine_cells(), self.spec_rows(), self.spec_cols()),
    {
    }

    /// The counter of flags is the number of flags on the board, and the
    /// counter of real mines the number of those flags that lie on a mine.
    pub proof fn lemma_counters(&self)
        requires
            self.wf(),
        ensures
            self.spec_guessed_mines() == flag_count(self.flag_grid()),
            self.spec_real_mines() == flagged_mine_count(self.flag_grid(), self.board()),
    {
    }

    /// Starts a game on a board of `m` rows and `n` columns with `no_mines`
    /// mines, none at the cell `(x, y)` that the player opens first, and
    /// opens it. That first move never meets a mine. The mines are those
    /// that `generate_mines` draws with `rng`.
    pub fn begin(n: u8, m: u8, no_mines: u8, x: u8, y: u8, rng: &mut MineRng) -> (res: (Game, GuessState))
        requires
            x < m,
            y < n,
            no_mines as int <= m as int * n as int - 1,
        ensures
            final(rng).asked() == old(rng).asked() + draw_bounds(m * n - 1, no_mines as int),
            final(rng).drawn().len() == old(rng).drawn().len() + no_mines,
            final(rng).drawn().subrange(0, old(rng).drawn().len() as int) == old(rng).drawn(),
            res.0.mine_cells() == mines_from_draws(m, n, x, y, final(rng).drawn().skip(old(rng).drawn().len() as int)),
            res.0.wf(),
            res.0.spec_rows() == m,
            res.0.spec_cols() == n,
            res.0.spec_no_mines() == no_mines,
            res.0.spec_guessed_mines() == 0,
            res.0.spec_real_mines() == 0,
            res.0.spec_running(),
            !res.0.mine_cells().contains((x as int, y as int)),
            res.1 == GuessState::Success,
            res.0.uncovered() == Set::<(int, int)>::empty().insert((x as int, y as int)).union(
                revealed_from(res.0.board(), (x as int, y as int)),
            ),
            forall|r: int, c: int|
                0 <= r < m && 0 <= c < n ==> !#[trigger] res.0.flag_grid()[r]@[c],
    {
        let mut field: Vec<Vec<i8>> = Vec::new();
        let mut flags: Vec<Vec<bool>> = Vec::new();
        let mut r: u8 = 0;
        while r < m
            invariant
                r <= m,
                field@.len() == r,
                flags@.len() == r,
                forall|i: int| 0 <= i < r ==> #[trigger] field@[i]@ == Seq::new(n as nat, |c: int| 0i8),
                forall|i: int| 0 <= i < r ==> #[trigger] flags@[i]@ == Seq::new(n as nat, |c: int| false),
            decreases m - r,
        {
            let mut row: Vec<i8> = Vec::new();
            let mut flag_row: Vec<bool> = Vec::new();
            let mut c: u8 = 0;
            while c < n
                invariant
                    c <= n,
                    row@ == Seq::new(c as nat, |k: int| 0i8),
                    flag_row@ == Seq::new(c as nat, |k: int| false),
                decreases n - c,
            {
                row.push(0);
                flag_row.push(false);
                c = c + 1;
                assert(row@ =~= Seq::new(c as nat, |k: int| 0i8));
                assert(flag_row@ =~= Seq::new(c as nat, |k: int| false));
            }
            field.push(row);
            flags.push(flag_row);
            r = r + 1;
        }
        let ghost f0 = field@;
        proof {
            assert(candidate_count(m, n, x, y) == m * n - 1);
            assert(f0[0]@.len() == n);
        }
        let ghost drawn0 = rng.drawn();
        generate_mines(&mut field, n, m, no_mines, x, y, rng);
        let ghost ms = mines_from_draws(m, n, x, y, rng.drawn().skip(drawn0.len() as int));
        proof {
            assert forall|q: (int, int)| in_box(q, m as int, n as int) implies #[trigger] cell(field@, q) as int
                == if ms.contains(q) {
                -1
            } else {
                adjacent_mines(ms.to_set(), q)
            } by {
                assert(f0[q.0]@ == Seq::new(n as nat, |c: int| 0i8));
                lemma_layout_shows_counts(f0, field@, ms, m as int, n as int, no_mines as int, (x as int, y as int), q);
            }
            assert forall|i: int| 0 <= i < field@.len() implies #[trigger] field@[i]@.len() == field@[0]@.len() by {
                assert(f0[i]@.len() == f0[0]@.len());
            }
            lemma_no_flags(flags@, Seq::empty(), false, flags@.len() as int);
            lemma_no_flags(flags@, field@, true, flags@.len() as int);
            crate::mines::lemma_mines_around_bound(ms.to_set(), (x as int, y as int), 8);
            assert(cell(field@, (x as int, y as int)) != -1);
        }
        let mut seen = CellSet::new();
        let result = handle_user_guess(x, y, &field, &mut seen, &flags);
        let game = Game {
            field,
            seen,
            flags,
            rows: m,
            cols: n,
            no_mines,
            guessed_mines: 0,
            real_mines: 0,
            running: true,
            mines: Ghost(ms),
        };
        proof {
            lemma_truncated_small(game.field@, (x as int, y as int));
            assert forall|p: (int, int)| #[trigger] game.seen@.contains(p) implies in_box(p, m as int, n as int)
                && !ms.contains(p) by {
                game.lemma_guess_adds_no_mine(Set::empty(), (x as int, y as int), p);
            }
        }
        (game, result)
    }

    /// A move at `(x, y)` can be made: the cell lies on the board, and a
    /// flag move leaves both counters within the `u8` range.
    pub closed spec fn spec_move_allowed(&self, action: Action, x: u8, y: u8) -> bool {
        &&& x < self.rows
        &&& y < self.cols
        &&& action == Action::Flag ==> flag_move_allowed(
            self.field@,
            self.seen@,
            self.flags@,
            self.guessed_mines,
            self.real_mines,
            x as usize,
            y as usize,
        )
    }

    /// Whether a move at `(x, y)` can be made.
    pub fn move_allowed(&self, action: Action, x: u8, y: u8) -> (ok: bool)
        requires
            self.wf(),
        ensures
            ok == self.spec_move_allowed(action, x, y),
    {
        if x >= self.rows || y >= self.cols {
            return false;
        }
        match action {
            Action::Reveal => true,
            Action::Flag => {
                if self.seen.contains(x, y) {
                    return true;
                }
                proof {
                    assert(self.field@[x as int]@.len() == self.field@[0]@.len());
                }
                let flagged = self.flags[x as usize][y as usize];
                let on_mine = self.field[x as usize][y as usize] == -1;
                if flagged {
                    self.guessed_mines >= 1 && (!on_mine || self.real_mines >= 1)
                } else {
                    self.guessed_mines < 255 && (!on_mine || self.real_mines < 255)
                }
            },
        }
    }

    /// Makes the player's move at `(x, y)`: uncovers the cell, or places or
    /// lifts a flag. Uncovering a mine stops the game.
    pub fn play(&mut self, action: Action, x: u8, y: u8) -> (result: GuessState)
        requires
            old(self).wf(),
            old(self).spec_move_allowed(action, x, y),
        ensures
            final(self).wf(),
            final(self).board() == old(self).board(),
            final(self).mine_cells() == old(self).mine_cells(),
            final(self).spec_rows() == old(self).spec_rows(),
            final(self).spec_cols() == old(self).spec_cols(),
            final(self).spec_no_mines() == old(self).spec_no_mines(),
            final(self).spec_running() == (old(self).spec_running() && result != GuessState::Exploded),
            action == Action::Reveal ==> {
                &&& result == guess_result(old(self).board(), old(self).uncovered(), old(self).flag_grid(), (x as int, y as int))
                &&& final(self).uncovered() == seen_after_guess(
                    old(self).board(),
                    old(self).uncovered(),
                    old(self).flag_grid(),
                    (x as int, y as int),
                )
                &&& final(self).flag_grid() == old(self).flag_grid()
                &&& final(self).spec_guessed_mines() == old(self).spec_guessed_mines()
                &&& final(self).spec_real_mines() == old(self).spec_real_mines()
            },
            action == Action::Flag ==> {
                &&& final(self).uncovered() == old(self).uncovered()
                &&& flag_move(
                    old(self).board(),
                    old(self).uncovered(),
                    old(self).flag_grid(),
                    final(self).flag_grid(),
                    old(self).spec_guessed_mines(),
                    final(self).spec_guessed_mines(),
                    old(self).spec_real_mines(),
                    final(self).spec_real_mines(),
                    x as usize,
                    y as usize,
                    result,
                )
            },
    {
        let result = handle_open_or_flag(
            action,
            x,
            y,
            &self.field,
            &mut self.seen,
            &mut self.flags,
            &mut self.guessed_mines,
            &mut self.real_mines,
        );
        if result == GuessState::Exploded {
            self.running = false;
        }
        proof {
            if self.running && action == Action::Reveal && result == GuessState::Success {
                assert forall|p: (int, int)| #[trigger] self.seen@.contains(p) implies in_box(
                    p,
                    self.rows as int,
                    self.cols as int,
                ) && !self.mines@.contains(p) by {
                    if !old(self).seen@.contains(p) {
                        old(self).lemma_guess_adds_no_mine(old(self).seen@, (x as int, y as int), p);
                    }
                }
            }
            if action == Action::Flag && !old(self).seen@.contains(flag_position(x as usize, y as usize)) {
                assert forall|r: int| 0 <= r < self.rows implies #[trigger] self.flags@[r]@.len() == self.cols by {
                    if r != x {
                        assert(self.flags@[r] == old(self).flags@[r]);
                    }
                }
            }
        }
        result
    }

    /// The game is over: a mine went off, or every mine carries a flag.
    pub fn is_over(&self) -> (over: bool)
        ensures
            over == !(self.spec_running() && self.spec_real_mines() < self.spec_no_mines()),
    {
        !(self.running && self.real_mines < self.no_mines)
    }

    /// The player has won: as many flags lie on mines as there are mines.
    pub fn is_won(&self) -> (won: bool)
        ensures
            won == (self.spec_real_mines() == self.spec_no_mines()),
    {
        self.real_mines == self.no_mines
    }

    /// The number of mines on the board.
    pub fn no_mines(&self) -> (count: u8)
        ensures
            count == self.spec_no_mines(),
    {
        self.no_mines
    }

    /// The number of flags placed.
    pub fn guessed_mines(&self) -> (count: u8)
        ensures
            count == self.spec_guessed_mines(),
    {
        self.guessed_mines
    }

    /// The number of mines less the flags placed.
    pub fn remaining_mines(&self) -> (count: u8)
        requires
            self.spec_guessed_mines() <= self.spec_no_mines(),
        ensures
            count == self.spec_no_mines() - self.spec_guessed_mines(),
    {
        self.no_mines - self.guessed_mines
    }

    /// The board as the player sees it, as text.
    pub fn render(&self) -> (text: Vec<char>)
        requires
            self.wf(),
        ensures
            text@ == field_text(self.board(), self.uncovered(), self.flag_grid()),
    {
        proof {
            assert(flags_cover(self.field@, self.seen@, self.flags@)) by {
                assert forall|i: int, j: int|
                    0 <= i < self.field@.len() && 0 <= j < self.field@[i]@.len() && !#[trigger] crate::render::is_shown(
                        self.seen@,
                        i,
                        j,
                    ) implies i < self.flags@.len() && j < self.flags@[i]@.len() by {
                    assert(self.field@[i]@.len() == self.field@[0]@.len());
                }
            }
        }
        render_field(&self.field, &self.seen, &self.flags)
    }
}

} // verus!
