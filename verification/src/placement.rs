//! Choosing where the mines go: every cell of the field but the one the
//! player opened first is a candidate, and the mines are drawn at random,
//! one after the other, from the candidates left.
use crate::grid::cell;
use crate::mines::{
    adjacent_mines, cell_after, holds_box, in_box, lay_mines, lemma_mine_counts, lemma_mine_positions,
    mine_positions, on_field, same_shape, valid_mines,
};
use rand::Rng;
use vstd::prelude::*;

verus! {

/// `a` comes before `b` when the cells are read row by row.
pub open spec fn precedes(a: (u8, u8), b: (u8, u8)) -> bool {
    a.0 < b.0 || (a.0 == b.0 && a.1 < b.1)
}

/// A cell of the first `m` rows and `n` columns other than `(x_user, y_user)`.
pub open spec fn is_candidate(p: (u8, u8), m: u8, n: u8, x_user: u8, y_user: u8) -> bool {
    p.0 < m && p.1 < n && !(p.0 == x_user && p.1 == y_user)
}

/// The number of candidate cells.
pub open spec fn candidate_count(m: u8, n: u8, x_user: u8, y_user: u8) -> int {
    m * n - if x_user < m && y_user < n {
        1int
    } else {
        0int
    }
}

/// The candidate cells among the first `c` columns of row `r`.
pub open spec fn row_candidates(r: u8, c: int, x_user: u8, y_user: u8) -> Seq<(u8, u8)>
    decreases c,
{
    if c <= 0 {
        Seq::empty()
    } else {
        row_candidates(r, c - 1, x_user, y_user) + if r == x_user && c - 1 == y_user {
            Seq::empty()
        } else {
            seq![(r, (c - 1) as u8)]
        }
    }
}

/// The candidate cells of the first `r` rows of `n` columns, row by row.
pub open spec fn candidates_upto(r: int, n: u8, x_user: u8, y_user: u8) -> Seq<(u8, u8)>
    decreases r,
{
    if r <= 0 {
        Seq::empty()
    } else {
        candidates_upto(r - 1, n, x_user, y_user) + row_candidates((r - 1) as u8, n as int, x_user, y_user)
    }
}

/// Every cell of the first `m` rows and `n` columns except
/// `(x_user, y_user)`, read row by row.
pub open spec fn candidate_cells(m: u8, n: u8, x_user: u8, y_user: u8) -> Seq<(u8, u8)> {
    candidates_upto(m as int, n, x_user, y_user)
}

/// Every cell of the first `m` rows and `n` columns except
/// `(x_user, y_user)`, read row by row.
pub fn mine_candidates(m: u8, n: u8, x_user: u8, y_user: u8) -> (cands: Vec<(u8, u8)>)
    ensures
        cands@ == candidate_cells(m, n, x_user, y_user),
        forall|j: int| 0 <= j < cands@.len() ==> #[trigger] is_candidate(cands@[j], m, n, x_user, y_user),
        forall|p: (u8, u8)| #[trigger] is_candidate(p, m, n, x_user, y_user) ==> cands@.contains(p),
        forall|i: int, j: int| 0 <= i < j < cands@.len() ==> #[trigger] precedes(cands@[i], cands@[j]),
        cands@.len() == candidate_count(m, n, x_user, y_user),
{
    let mut cands: Vec<(u8, u8)> = Vec::new();
    let mut r: u8 = 0;
    assert(cands@ =~= candidates_upto(0, n, x_user, y_user));
    while r < m
        invariant
            r <= m,
            cands@ == candidates_upto(r as int, n, x_user, y_user),
            forall|j: int| 0 <= j < cands@.len() ==> #[trigger] is_candidate(cands@[j], m, n, x_user, y_user),
            forall|j: int| 0 <= j < cands@.len() ==> #[trigger] cands@[j].0 < r,
            forall|p: (u8, u8)| #[trigger] is_candidate(p, m, n, x_user, y_user) && p.0 < r ==> cands@.contains(p),
            forall|i: int, j: int| 0 <= i < j < cands@.len() ==> #[trigger] precedes(cands@[i], cands@[j]),
            cands@.len() == r * n - if x_user < r && y_user < n {
                1int
            } else {
                0int
            },
        decreases m - r,
    {
        let mut c: u8 = 0;
        assert(cands@ =~= candidates_upto(r as int, n, x_user, y_user) + row_candidates(r, 0, x_user, y_user));
        while c < n
            invariant
                r < m,
                c <= n,
                cands@ == candidates_upto(r as int, n, x_user, y_user) + row_candidates(r, c as int, x_user, y_user),
                forall|j: int| 0 <= j < cands@.len() ==> #[trigger] is_candidate(cands@[j], m, n, x_user, y_user),
                forall|j: int| 0 <= j < cands@.len() ==> #[trigger] precedes(cands@[j], (r, c)),
                forall|p: (u8, u8)| #[trigger]
                    is_candidate(p, m, n, x_user, y_user) && precedes(p, (r, c)) ==> cands@.contains(p),
                forall|i: int, j: int| 0 <= i < j < cands@.len() ==> #[trigger] precedes(cands@[i], cands@[j]),
                cands@.len() == r * n + c - (if x_user < r && y_user < n {
                    1int
                } else {
                    0int
                }) - (if x_user == r && y_user < c {
                    1int
                } else {
                    0int
                }),
            decreases n - c,
        {
            let ghost before = cands@;
            if !(r == x_user && c == y_user) {
                cands.push((r, c));
                proof {
                    assert forall|p: (u8, u8)| #[trigger]
                        is_candidate(p, m, n, x_user, y_user) && precedes(p, (r, (c + 1) as u8))
                        implies cands@.contains(p) by {
                        if p == (r, c) {
                            assert(cands@[before.len() as int] == p);
                        } else {
                            assert(before.contains(p));
                            let j = choose|j: int| 0 <= j < before.len() && before[j] == p;
                            assert(cands@[j] == p);
                        }
                    }
                }
            } else {
                proof {
                    assert forall|p: (u8, u8)| #[trigger]
                        is_candidate(p, m, n, x_user, y_user) && precedes(p, (r, (c + 1) as u8))
                        implies cands@.contains(p) by {
                        assert(p != (r, c));
                    }
                }
            }
            proof {
                assert(cands@ =~= candidates_upto(r as int, n, x_user, y_user) + row_candidates(r, c + 1, x_user, y_user));
                assert forall|j: int| 0 <= j < cands@.len() implies #[trigger] precedes(cands@[j], (r, (c + 1) as u8)) by {
                    if j < before.len() {
                        assert(cands@[j] == before[j]);
                        assert(precedes(before[j], (r, c)));
                    }
                }
            }
            c = c + 1;
        }
        proof {
            assert(cands@ =~= candidates_upto(r + 1, n, x_user, y_user));
            assert((r + 1) * n == r * n + n) by (nonlinear_arith);
            assert forall|j: int| 0 <= j < cands@.len() implies #[trigger] cands@[j].0 < r + 1 by {
                assert(precedes(cands@[j], (r, c)));
            }
            assert forall|p: (u8, u8)| #[trigger] is_candidate(p, m, n, x_user, y_user) && p.0 < r + 1 implies cands@.contains(p) by {
                assert(precedes(p, (r, c)));
            }
        }
        r = r + 1;
    }
    cands
}

/// The cells that the draws pick, one after the other: a draw picks the
/// cell at that index among the candidates left, and the cell leaves them.
pub open spec fn picked(cands: Seq<(u8, u8)>, draws: Seq<usize>) -> Seq<(u8, u8)>
    decreases draws.len(),
{
    if draws.len() == 0 {
        Seq::empty()
    } else {
        seq![cands[draws[0] as int]] + picked(cands.remove(draws[0] as int), draws.drop_first())
    }
}

/// Each draw is an index among the candidates that are left at its turn.
pub open spec fn draws_fit(len: int, draws: Seq<usize>) -> bool {
    forall|t: int| 0 <= t < draws.len() ==> #[trigger] draws[t] < len - t
}

/// Picks one candidate per draw, in turn, each draw an index among the
/// candidates that are left.
pub fn select_mines(candidates: Vec<(u8, u8)>, draws: &Vec<usize>) -> (mines: Vec<(u8, u8)>)
    requires
        draws_fit(candidates@.len() as int, draws@),
    ensures
        mines@ == picked(candidates@, draws@),
        mines@.len() == draws@.len(),
        forall|j: int| 0 <= j < mines@.len() ==> candidates@.contains(#[trigger] mines@[j]),
        candidates@.no_duplicates() ==> mines@.no_duplicates(),
{
    let ghost cands0 = candidates@;
    let mut left = candidates;
    let mut mines: Vec<(u8, u8)> = Vec::new();
    let mut t: usize = 0;
    proof {
        assert(draws@.skip(0) == draws@);
        assert(mines@ + picked(left@, draws@.skip(0)) =~= picked(cands0, draws@));
    }
    while t < draws.len()
        invariant
            0 <= t <= draws@.len(),
            draws_fit(cands0.len() as int, draws@),
            left@.len() == cands0.len() - t,
            mines@.len() == t,
            mines@ + picked(left@, draws@.skip(t as int)) == picked(cands0, draws@),
            forall|j: int| 0 <= j < mines@.len() ==> cands0.contains(#[trigger] mines@[j]),
            forall|j: int| 0 <= j < left@.len() ==> cands0.contains(#[trigger] left@[j]),
            cands0.no_duplicates() ==> {
                &&& mines@.no_duplicates()
                &&& left@.no_duplicates()
                &&& forall|i: int, j: int| 0 <= i < mines@.len() && 0 <= j < left@.len() ==> #[trigger] mines@[i] != #[trigger] left@[j]
            },
        decreases draws@.len() - t,
    {
        let d = draws[t];
        assert(d < left@.len());
        let ghost before = left@;
        let ghost mines_before = mines@;
        let e = left.remove(d);
        mines.push(e);
        proof {
            let rest = draws@.skip(t as int);
            assert(rest[0] == d);
            assert(rest.drop_first() =~= draws@.skip(t + 1));
            assert(picked(before, rest) == seq![before[d as int]] + picked(before.remove(d as int), rest.drop_first()));
            assert(mines@ + picked(left@, draws@.skip(t + 1)) =~= mines_before + picked(before, rest));
            assert forall|j: int| 0 <= j < left@.len() implies cands0.contains(#[trigger] left@[j]) by {
                if j < d {
                    assert(left@[j] == before[j]);
                } else {
                    assert(left@[j] == before[j + 1]);
                }
            }
            assert forall|j: int| 0 <= j < mines@.len() implies cands0.contains(#[trigger] mines@[j]) by {
                if j < t {
                    assert(mines@[j] == mines_before[j]);
                }
            }
            if cands0.no_duplicates() {
                assert forall|i: int, j: int| 0 <= i < mines@.len() && 0 <= j < left@.len() implies #[trigger] mines@[i] != #[trigger] left@[j] by {
                    let jj = if j < d { j } else { j + 1 };
                    assert(left@[j] == before[jj]);
                    if i < t {
                        assert(mines@[i] == mines_before[i]);
                    } else {
                        assert(mines@[i] == before[d as int]);
                    }
                }
                assert forall|i: int, j: int| 0 <= i < mines@.len() && 0 <= j < mines@.len() && i != j implies mines@[i] != mines@[j] by {
                    if i < t && j < t {
                        assert(mines@[i] == mines_before[i] && mines@[j] == mines_before[j]);
                    } else if i < t {
                        assert(mines@[i] == mines_before[i] && mines@[j] == before[d as int]);
                    } else {
                        assert(mines@[j] == mines_before[j] && mines@[i] == before[d as int]);
                    }
                }
                assert forall|i: int, j: int| 0 <= i < left@.len() && 0 <= j < left@.len() && i != j implies left@[i] != left@[j] by {
                    let ii = if i < d { i } else { i + 1 };
                    let jj = if j < d { j } else { j + 1 };
                    assert(left@[i] == before[ii] && left@[j] == before[jj]);
                }
            }
        }
        t = t + 1;
    }
    proof {
        assert(draws@.skip(t as int) =~= Seq::<usize>::empty());
        assert(mines@ + Seq::<(u8, u8)>::empty() =~= mines@);
    }
    mines
}

/// rand's thread-local random number generator, carried through as it is.
#[verifier::external_type_specification]
#[verifier::external_body]
pub struct ExThreadRng(rand::rngs::ThreadRng);

/// Calls `rand::thread_rng`, which hands out the thread's random number
/// generator (rand panics if the operating system cannot seed it). Nothing
/// is claimed of the generator.
#[verifier::external_body]
fn new_rng() -> rand::rngs::ThreadRng {
    rand::thread_rng()
}

/// Calls `Rng::gen_range` on the range `0..bound`. Claimed: the result lies
/// in the range; rand panics on an empty range, which `bound > 0` rules
/// out. Which value of the range comes back is chance, and left unsaid.
#[verifier::external_body]
fn random_below(rng: &mut rand::rngs::ThreadRng, bound: usize) -> (r: usize)
    requires
        bound > 0,
    ensures
        r < bound,
{
    rng.gen_range(0..bound)
}

/// The candidates of row `r` among its first `c` columns are exactly the
/// cells `(r, j)`, `j < c`, other than the first cell opened.
proof fn lemma_row_candidates(r: u8, c: int, x_user: u8, y_user: u8)
    requires
        0 <= c <= 256,
    ensures
        row_candidates(r, c, x_user, y_user).len() == c - if r == x_user && y_user < c {
            1int
        } else {
            0int
        },
        forall|p: (u8, u8)| #[trigger]
            row_candidates(r, c, x_user, y_user).contains(p) <==> (p.0 == r && p.1 < c && !(p.0 == x_user
                && p.1 == y_user)),
    decreases c,
{
    if c > 0 {
        lemma_row_candidates(r, c - 1, x_user, y_user);
        let prev = row_candidates(r, c - 1, x_user, y_user);
        let last: Seq<(u8, u8)> = if r == x_user && c - 1 == y_user {
            Seq::empty()
        } else {
            seq![(r, (c - 1) as u8)]
        };
        assert forall|p: (u8, u8)| #[trigger] (prev + last).contains(p) <==> (prev.contains(p) || last.contains(p)) by {
            if (prev + last).contains(p) {
                let k = choose|k: int| 0 <= k < (prev + last).len() && (prev + last)[k] == p;
                if k < prev.len() {
                    assert(prev[k] == p);
                } else {
                    assert(last[k - prev.len()] == p);
                }
            }
            if prev.contains(p) {
                let k = choose|k: int| 0 <= k < prev.len() && prev[k] == p;
                assert((prev + last)[k] == p);
            }
            if last.contains(p) {
                let k = choose|k: int| 0 <= k < last.len() && last[k] == p;
                assert((prev + last)[prev.len() + k] == p);
            }
            if p.0 == r && p.1 == c - 1 && !(p.0 == x_user && p.1 == y_user) {
                assert(last[0] == p);
            }
        }
        assert(row_candidates(r, c, x_user, y_user) == prev + last);
        assert(((c - 1) as u8) as int == c - 1);
        assert forall|p: (u8, u8)| #[trigger] row_candidates(r, c, x_user, y_user).contains(p) <==> (p.0 == r && p.1 < c
            && !(p.0 == x_user && p.1 == y_user)) by {
            if last.contains(p) {
                assert(last[0] == p);
            }
            if p.0 == r && p.1 == c - 1 && !(p.0 == x_user && p.1 == y_user) {
                assert(last[0] == p);
                assert(last.contains(p));
            }
        }
    } else {
        assert forall|p: (u8, u8)| !#[trigger] row_candidates(r, c, x_user, y_user).contains(p) by {}
    }
}

/// The candidates of the first `r` rows of `n` columns are exactly the
/// cells of those rows other than the first cell opened, one per cell.
proof fn lemma_candidates_upto(r: int, n: u8, x_user: u8, y_user: u8)
    requires
        0 <= r <= 256,
    ensures
        candidates_upto(r, n, x_user, y_user).len() == r * n - if x_user < r && y_user < n {
            1int
        } else {
            0int
        },
        forall|p: (u8, u8)| #[trigger]
            candidates_upto(r, n, x_user, y_user).contains(p) <==> (p.0 < r && p.1 < n && !(p.0 == x_user
                && p.1 == y_user)),
    decreases r,
{
    if r > 0 {
        lemma_candidates_upto(r - 1, n, x_user, y_user);
        lemma_row_candidates((r - 1) as u8, n as int, x_user, y_user);
        let prev = candidates_upto(r - 1, n, x_user, y_user);
        let row = row_candidates((r - 1) as u8, n as int, x_user, y_user);
        assert((r - 1) * n + n == r * n) by (nonlinear_arith);
        assert forall|p: (u8, u8)| #[trigger] (prev + row).contains(p) <==> (prev.contains(p) || row.contains(p)) by {
            if (prev + row).contains(p) {
                let k = choose|k: int| 0 <= k < (prev + row).len() && (prev + row)[k] == p;
                if k < prev.len() {
                    assert(prev[k] == p);
                } else {
                    assert(row[k - prev.len()] == p);
                }
            }
            if prev.contains(p) {
                let k = choose|k: int| 0 <= k < prev.len() && prev[k] == p;
                assert((prev + row)[k] == p);
            }
            if row.contains(p) {
                let k = choose|k: int| 0 <= k < row.len() && row[k] == p;
                assert((prev + row)[prev.len() + k] == p);
            }
        }
    } else {
        assert forall|p: (u8, u8)| !#[trigger] candidates_upto(r, n, x_user, y_user).contains(p) by {}
    }
}

/// A draw picks the candidate at the drawn index: the first mine is the
/// candidate, in reading order, whose index is the first value drawn.
pub proof fn lemma_first_draw_picks_index(m: u8, n: u8, x_user: u8, y_user: u8, draws: Seq<usize>)
    requires
        draws.len() >= 1,
        draws[0] < candidate_count(m, n, x_user, y_user),
    ensures
        mines_from_draws(m, n, x_user, y_user, draws)[0] == (
            candidate_cells(m, n, x_user, y_user)[draws[0] as int].0 as int,
            candidate_cells(m, n, x_user, y_user)[draws[0] as int].1 as int,
        ),
{
    lemma_candidates_upto(m as int, n, x_user, y_user);
    let cands = candidate_cells(m, n, x_user, y_user);
    assert(picked(cands, draws)[0] == cands[draws[0] as int]);
    lemma_mine_positions(picked(cands, draws));
}

/// Every cell of the board other than the first cell opened can receive a
/// mine: for any number of mines from one up to the candidates, some draws
/// within their bounds put a mine on it.
pub proof fn lemma_every_candidate_reachable(m: u8, n: u8, x_user: u8, y_user: u8, p: (u8, u8), k: int)
    requires
        is_candidate(p, m, n, x_user, y_user),
        1 <= k <= candidate_count(m, n, x_user, y_user),
    ensures
        exists|draws: Seq<usize>|
            #![trigger mines_from_draws(m, n, x_user, y_user, draws)]
            draws.len() == k && draws_fit(candidate_count(m, n, x_user, y_user), draws) && mines_from_draws(
                m,
                n,
                x_user,
                y_user,
                draws,
            ).contains((p.0 as int, p.1 as int)),
{
    lemma_candidates_upto(m as int, n, x_user, y_user);
    let cands = candidate_cells(m, n, x_user, y_user);
    assert(cands.contains(p));
    let j = choose|j: int| 0 <= j < cands.len() && cands[j] == p;
    assert(m * n <= 65025) by (nonlinear_arith)
        requires
            m <= 255,
            n <= 255,
    ;
    assert((j as usize) as int == j);
    let draws = seq![j as usize] + Seq::new((k - 1) as nat, |t: int| 0usize);
    assert(draws.len() == k);
    assert(draws[0] == j as usize);
    assert forall|t: int| 0 <= t < draws.len() implies #[trigger] draws[t] < candidate_count(m, n, x_user, y_user)
        - t by {
        if t > 0 {
            assert(draws[t] == 0usize);
        }
    }
    lemma_first_draw_picks_index(m, n, x_user, y_user, draws);
    let ms = mines_from_draws(m, n, x_user, y_user, draws);
    lemma_mine_positions(picked(cands, draws));
    assert(ms[0] == (p.0 as int, p.1 as int));
    assert(ms.len() >= 1) by {
        assert(picked(cands, draws).len() >= 1);
    }
    assert(ms.contains((p.0 as int, p.1 as int)));
}

/// Each cell comes strictly before the next in reading order.
pub open spec fn strictly_sorted(s: Seq<(u8, u8)>) -> bool {
    forall|i: int, j: int| 0 <= i < j < s.len() ==> #[trigger] precedes(s[i], s[j])
}

/// Two sorted runs, the first wholly before the second, make a sorted run.
proof fn lemma_sorted_concat(a: Seq<(u8, u8)>, b: Seq<(u8, u8)>)
    requires
        strictly_sorted(a),
        strictly_sorted(b),
        forall|i: int, j: int| 0 <= i < a.len() && 0 <= j < b.len() ==> #[trigger] precedes(a[i], b[j]),
    ensures
        strictly_sorted(a + b),
{
    assert forall|i: int, j: int| 0 <= i < j < (a + b).len() implies #[trigger] precedes((a + b)[i], (a + b)[j]) by {
        if j < a.len() {
            assert(precedes(a[i], a[j]));
        } else if i >= a.len() {
            assert(precedes(b[i - a.len()], b[j - a.len()]));
        } else {
            assert(precedes(a[i], b[j - a.len()]));
        }
    }
}

/// The candidates of a row come in reading order.
proof fn lemma_row_candidates_sorted(r: u8, c: int, x_user: u8, y_user: u8)
    requires
        0 <= c <= 256,
    ensures
        strictly_sorted(row_candidates(r, c, x_user, y_user)),
    decreases c,
{
    if c > 0 {
        lemma_row_candidates_sorted(r, c - 1, x_user, y_user);
        lemma_row_candidates(r, c - 1, x_user, y_user);
        let prev = row_candidates(r, c - 1, x_user, y_user);
        let last: Seq<(u8, u8)> = if r == x_user && c - 1 == y_user {
            Seq::empty()
        } else {
            seq![(r, (c - 1) as u8)]
        };
        assert(((c - 1) as u8) as int == c - 1);
        assert forall|i: int, j: int| 0 <= i < prev.len() && 0 <= j < last.len() implies #[trigger] precedes(
            prev[i],
            last[j],
        ) by {
            assert(prev.contains(prev[i]));
        }
        lemma_sorted_concat(prev, last);
        assert(row_candidates(r, c, x_user, y_user) == prev + last);
    }
}

/// The candidates of the first `r` rows come in reading order.
proof fn lemma_candidates_sorted(r: int, n: u8, x_user: u8, y_user: u8)
    requires
        0 <= r <= 256,
    ensures
        strictly_sorted(candidates_upto(r, n, x_user, y_user)),
    decreases r,
{
    if r > 0 {
        lemma_candidates_sorted(r - 1, n, x_user, y_user);
        lemma_candidates_upto(r - 1, n, x_user, y_user);
        lemma_row_candidates((r - 1) as u8, n as int, x_user, y_user);
        lemma_row_candidates_sorted((r - 1) as u8, n as int, x_user, y_user);
        let prev = candidates_upto(r - 1, n, x_user, y_user);
        let row = row_candidates((r - 1) as u8, n as int, x_user, y_user);
        assert forall|i: int, j: int| 0 <= i < prev.len() && 0 <= j < row.len() implies #[trigger] precedes(
            prev[i],
            row[j],
        ) by {
            assert(prev.contains(prev[i]));
            assert(row.contains(row[j]));
        }
        lemma_sorted_concat(prev, row);
    }
}

/// The candidates left once the draws have taken theirs.
pub open spec fn left_after(cands: Seq<(u8, u8)>, draws: Seq<usize>) -> Seq<(u8, u8)>
    decreases draws.len(),
{
    if draws.len() == 0 {
        cands
    } else {
        left_after(cands.remove(draws[0] as int), draws.drop_first())
    }
}

/// One more draw picks the candidate at the drawn index among those left.
proof fn lemma_picked_push(cands: Seq<(u8, u8)>, draws: Seq<usize>, d: usize)
    requires
        draws_fit(cands.len() as int, draws),
        d < cands.len() - draws.len(),
    ensures
        picked(cands, draws.push(d)) == picked(cands, draws).push(left_after(cands, draws)[d as int]),
        left_after(cands, draws).len() == cands.len() - draws.len(),
        left_after(cands, draws.push(d)) == left_after(cands, draws).remove(d as int),
    decreases draws.len(),
{
    if draws.len() == 0 {
        let one = draws.push(d);
        assert(one.drop_first() =~= Seq::<usize>::empty());
        assert(one[0] == d);
        assert(picked(cands.remove(d as int), Seq::<usize>::empty()) == Seq::<(u8, u8)>::empty());
        assert(picked(cands, one) == seq![cands[d as int]] + picked(cands.remove(d as int), one.drop_first()));
        assert(picked(cands, one) =~= seq![cands[d as int]]);
        assert(left_after(cands.remove(d as int), Seq::<usize>::empty()) == cands.remove(d as int));
        assert(left_after(cands, one) == left_after(cands.remove(d as int), one.drop_first()));
        assert(picked(cands, draws) == Seq::<(u8, u8)>::empty());
        assert(left_after(cands, draws) == cands);
    } else {
        let c2 = cands.remove(draws[0] as int);
        let rest = draws.drop_first();
        assert(draws[0] < cands.len());
        assert(draws.push(d).drop_first() =~= rest.push(d));
        assert(draws.push(d)[0] == draws[0]);
        assert forall|t: int| 0 <= t < rest.len() implies #[trigger] rest[t] < c2.len() - t by {
            assert(rest[t] == draws[t + 1]);
        }
        lemma_picked_push(c2, rest, d);
        let longer = draws.push(d);
        assert(left_after(cands, longer) == left_after(c2, longer.drop_first()));
        assert(picked(cands, longer) == seq![cands[draws[0] as int]] + picked(c2, longer.drop_first()));
        assert(picked(cands, longer) =~= picked(cands, draws).push(left_after(cands, draws)[d as int]));
    }
}

/// What is left is what was not picked, still in reading order.
proof fn lemma_left_after(cands: Seq<(u8, u8)>, draws: Seq<usize>)
    requires
        draws_fit(cands.len() as int, draws),
        draws.len() <= cands.len(),
        strictly_sorted(cands),
    ensures
        strictly_sorted(left_after(cands, draws)),
        left_after(cands, draws).len() == cands.len() - draws.len(),
        forall|x: (u8, u8)| #[trigger]
            left_after(cands, draws).contains(x) <==> cands.contains(x) && !picked(cands, draws).contains(x),
    decreases draws.len(),
{
    if draws.len() > 0 {
        let i = draws[0] as int;
        assert(draws[0] < cands.len());
        let c2 = cands.remove(i);
        let rest = draws.drop_first();
        assert forall|t: int| 0 <= t < rest.len() implies #[trigger] rest[t] < c2.len() - t by {
            assert(rest[t] == draws[t + 1]);
        }
        assert(strictly_sorted(c2)) by {
            assert forall|a: int, b: int| 0 <= a < b < c2.len() implies #[trigger] precedes(c2[a], c2[b]) by {
                let aa = if a < i { a } else { a + 1 };
                let bb = if b < i { b } else { b + 1 };
                assert(c2[a] == cands[aa] && c2[b] == cands[bb]);
                assert(precedes(cands[aa], cands[bb]));
            }
        }
        lemma_left_after(c2, rest);
        let p2 = picked(c2, rest);
        assert(picked(cands, draws) == seq![cands[i]] + p2);
        assert forall|x: (u8, u8)| #[trigger] c2.contains(x) <==> cands.contains(x) && x != cands[i] by {
            if c2.contains(x) {
                let a = choose|a: int| 0 <= a < c2.len() && c2[a] == x;
                let aa = if a < i { a } else { a + 1 };
                assert(cands[aa] == x);
                if aa < i {
                    assert(precedes(cands[aa], cands[i]));
                } else {
                    assert(precedes(cands[i], cands[aa]));
                }
            }
            if cands.contains(x) && x != cands[i] {
                let a = choose|a: int| 0 <= a < cands.len() && cands[a] == x;
                if a < i {
                    assert(c2[a] == x);
                } else {
                    assert(c2[a - 1] == x);
                }
            }
        }
        assert forall|x: (u8, u8)| #[trigger] picked(cands, draws).contains(x) <==> x == cands[i] || p2.contains(x) by {
            let whole = seq![cands[i]] + p2;
            if whole.contains(x) {
                let a = choose|a: int| 0 <= a < whole.len() && whole[a] == x;
                if a > 0 {
                    assert(p2[a - 1] == x);
                }
            }
            if x == cands[i] {
                assert(whole[0] == x);
            }
            if p2.contains(x) {
                let a = choose|a: int| 0 <= a < p2.len() && p2[a] == x;
                assert(whole[a + 1] == x);
            }
        }
    }
}

/// Positions of picked cells, as integers, match the cells themselves.
proof fn lemma_mine_positions_contains(v: Seq<(u8, u8)>, x: (u8, u8))
    ensures
        mine_positions(v).contains((x.0 as int, x.1 as int)) <==> v.contains(x),
{
    lemma_mine_positions(v);
    if v.contains(x) {
        let a = choose|a: int| 0 <= a < v.len() && v[a] == x;
        assert(mine_positions(v)[a] == (x.0 as int, x.1 as int));
    }
    if mine_positions(v).contains((x.0 as int, x.1 as int)) {
        let a = choose|a: int| 0 <= a < mine_positions(v).len() && mine_positions(v)[a] == (x.0 as int, x.1 as int);
        assert(v[a] == x);
    }
}

/// Each draw picks, among the candidate cells not yet picked taken in
/// reading order, the one at the drawn index: any value below the bound
/// picks a cell, and every cell not yet picked is picked by some value.
pub proof fn lemma_draw_picks_in_order(m: u8, n: u8, x_user: u8, y_user: u8, draws: Seq<usize>, d: usize)
    requires
        draws_fit(candidate_count(m, n, x_user, y_user), draws),
        d < candidate_count(m, n, x_user, y_user) - draws.len(),
    ensures
        exists|left: Seq<(u8, u8)>|
            {
                &&& strictly_sorted(left)
                &&& left.len() == candidate_count(m, n, x_user, y_user) - draws.len()
                &&& forall|x: (u8, u8)| #[trigger]
                    left.contains(x) <==> is_candidate(x, m, n, x_user, y_user) && !mines_from_draws(
                        m,
                        n,
                        x_user,
                        y_user,
                        draws,
                    ).contains((x.0 as int, x.1 as int))
                &&& mines_from_draws(m, n, x_user, y_user, draws.push(d)) == mines_from_draws(
                    m,
                    n,
                    x_user,
                    y_user,
                    draws,
                ).push((left[d as int].0 as int, left[d as int].1 as int))
            },
{
    let cands = candidate_cells(m, n, x_user, y_user);
    lemma_candidates_upto(m as int, n, x_user, y_user);
    lemma_candidates_sorted(m as int, n, x_user, y_user);
    lemma_picked_push(cands, draws, d);
    lemma_left_after(cands, draws);
    let left = left_after(cands, draws);
    assert forall|x: (u8, u8)| #[trigger] left.contains(x) <==> is_candidate(x, m, n, x_user, y_user)
        && !mines_from_draws(m, n, x_user, y_user, draws).contains((x.0 as int, x.1 as int)) by {
        lemma_mine_positions_contains(picked(cands, draws), x);
    }
    let before = picked(cands, draws);
    lemma_mine_positions(before);
    lemma_mine_positions(before.push(left[d as int]));
    assert(mine_positions(before.push(left[d as int])) =~= mine_positions(before).push(
        (left[d as int].0 as int, left[d as int].1 as int),
    ));
}

/// A random number generator that keeps, as a record, the bound of every
/// draw and the value drawn.
pub struct MineRng {
    rng: rand::rngs::ThreadRng,
    asked: Ghost<Seq<usize>>,
    drawn: Ghost<Seq<usize>>,
}

impl MineRng {
    /// The bounds of the draws so far, in order.
    pub closed spec fn asked(&self) -> Seq<usize> {
        self.asked@
    }

    /// The values drawn so far, in order.
    pub closed spec fn drawn(&self) -> Seq<usize> {
        self.drawn@
    }

    /// A generator with no draws yet.
    pub fn new() -> (g: Self)
        ensures
            g.asked() == Seq::<usize>::empty(),
            g.drawn() == Seq::<usize>::empty(),
    {
        MineRng { rng: new_rng(), asked: Ghost(Seq::empty()), drawn: Ghost(Seq::empty()) }
    }

    /// Draws a number below `bound`, and records the bound and the number.
    pub fn below(&mut self, bound: usize) -> (v: usize)
        requires
            bound > 0,
        ensures
            v < bound,
            final(self).asked() == old(self).asked().push(bound),
            final(self).drawn() == old(self).drawn().push(v),
    {
        let v = random_below(&mut self.rng, bound);
        self.asked = Ghost(self.asked@.push(bound));
        self.drawn = Ghost(self.drawn@.push(v));
        v
    }
}

/// The bounds of `k` draws that each take one of `total` candidates and
/// leave the rest: `total`, `total - 1`, and so on.
pub open spec fn draw_bounds(total: int, k: int) -> Seq<usize> {
    Seq::new(k as nat, |t: int| (total - t) as usize)
}

/// The mines that the draws pick among the candidates of an `m` by `n`
/// board whose first cell opened is `(x_user, y_user)`.
pub open spec fn mines_from_draws(m: u8, n: u8, x_user: u8, y_user: u8, draws: Seq<usize>) -> Seq<(int, int)> {
    mine_positions(picked(candidate_cells(m, n, x_user, y_user), draws))
}

/// `f1` is `f0` with the `count` distinct mines `ms` laid in the first `m`
/// rows and `n` columns, none of them at `user`.
pub open spec fn is_mine_layout(
    f0: Seq<Vec<i8>>,
    f1: Seq<Vec<i8>>,
    ms: Seq<(int, int)>,
    m: int,
    n: int,
    count: int,
    user: (int, int),
) -> bool {
    &&& ms.len() == count
    &&& valid_mines(ms, m, n)
    &&& !ms.contains(user)
    &&& same_shape(f0, f1)
    &&& forall|q: (int, int)| on_field(f0, q) ==> #[trigger] cell(f1, q) as int == cell_after(f0, ms, m, n, q)
}

/// Once mines are laid, every cell of the box shows `-1` where it holds a
/// mine (or held `-1` before), and else its old value plus the number of
/// mines that touch it; on a field of zeros, exactly the number of
/// neighbouring mines.
pub proof fn lemma_layout_shows_counts(
    f0: Seq<Vec<i8>>,
    f1: Seq<Vec<i8>>,
    ms: Seq<(int, int)>,
    m: int,
    n: int,
    count: int,
    user: (int, int),
    q: (int, int),
)
    requires
        is_mine_layout(f0, f1, ms, m, n, count, user),
        holds_box(f0, m, n),
        in_box(q, m, n),
        cell(f0, q) >= -1,
    ensures
        cell(f1, q) as int == if ms.contains(q) || cell(f0, q) == -1 {
            -1
        } else {
            cell(f0, q) + adjacent_mines(ms.to_set(), q)
        },
{
    assert(f0[q.0]@.len() >= n);
    assert(on_field(f0, q));
    lemma_mine_counts(f0, ms, m, n, q);
}

/// A list in strictly increasing reading order holds no cell twice.
proof fn lemma_sorted_distinct(s: Seq<(u8, u8)>)
    requires
        forall|i: int, j: int| 0 <= i < j < s.len() ==> #[trigger] precedes(s[i], s[j]),
    ensures
        s.no_duplicates(),
{
    assert forall|i: int, j: int| 0 <= i < s.len() && 0 <= j < s.len() && i != j implies s[i] != s[j] by {
        if i < j {
            assert(precedes(s[i], s[j]));
        } else {
            assert(precedes(s[j], s[i]));
        }
    }
}

/// Places `no_mines` mines at random in the first `m` rows and `n` columns,
/// never at the player's first cell `(x_user, y_user)` and never two in one
/// cell, and counts each mine in the cells around it. Mine `t` is drawn
/// with a bound of the candidates left, `candidate_count - t`, and the value
/// drawn picks it among them in reading order.
pub fn generate_mines(
    field: &mut Vec<Vec<i8>>,
    n: u8,
    m: u8,
    no_mines: u8,
    x_user: u8,
    y_user: u8,
    rng: &mut MineRng,
)
    requires
        holds_box(old(field)@, m as int, n as int),
        no_mines <= candidate_count(m, n, x_user, y_user),
        forall|q: (int, int)| in_box(q, m as int, n as int) ==> #[trigger] cell(old(field)@, q) <= 119,
    ensures
        final(rng).asked() == old(rng).asked() + draw_bounds(candidate_count(m, n, x_user, y_user), no_mines as int),
        final(rng).drawn().len() == old(rng).drawn().len() + no_mines,
        final(rng).drawn().subrange(0, old(rng).drawn().len() as int) == old(rng).drawn(),
        is_mine_layout(
            old(field)@,
            final(field)@,
            mines_from_draws(m, n, x_user, y_user, final(rng).drawn().skip(old(rng).drawn().len() as int)),
            m as int,
            n as int,
            no_mines as int,
            (x_user as int, y_user as int),
        ),
{
    let cands = mine_candidates(m, n, x_user, y_user);
    let total = cands.len();
    let ghost asked0 = rng.asked();
    let ghost drawn0 = rng.drawn();
    let mut draws: Vec<usize> = Vec::new();
    let mut t: usize = 0;
    proof {
        assert(rng.asked() =~= asked0 + draw_bounds(total as int, 0));
        assert(rng.drawn() =~= drawn0 + draws@);
    }
    while t < no_mines as usize
        invariant
            t <= no_mines,
            no_mines <= total,
            total == cands@.len(),
            draws@.len() == t,
            forall|s: int| 0 <= s < t ==> #[trigger] draws@[s] < total - s,
            rng.asked() == asked0 + draw_bounds(total as int, t as int),
            rng.drawn() == drawn0 + draws@,
        decreases no_mines - t,
    {
        let d = rng.below(total - t);
        draws.push(d);
        t = t + 1;
        proof {
            assert(rng.asked() =~= asked0 + draw_bounds(total as int, t as int));
            assert(rng.drawn() =~= drawn0 + draws@);
        }
    }
    proof {
        lemma_sorted_distinct(cands@);
        assert(rng.drawn().skip(drawn0.len() as int) =~= draws@);
        assert(rng.drawn().subrange(0, drawn0.len() as int) =~= drawn0);
    }
    let ghost cands_view = cands@;
    let mines = select_mines(cands, &draws);
    proof {
        assert forall|k: int| 0 <= k < mines@.len() implies #[trigger] mines@[k].0 < m && mines@[k].1 < n by {
            assert(cands_view.contains(mines@[k]));
            let j = choose|j: int| 0 <= j < cands_view.len() && cands_view[j] == mines@[k];
            assert(is_candidate(cands_view[j], m, n, x_user, y_user));
        }
    }
    let ghost f0 = field@;
    lay_mines(field, m, n, &mines);
    proof {
        let ms = mine_positions(mines@);
        let user = (x_user as int, y_user as int);
        lemma_mine_positions(mines@);
        assert forall|k: int| 0 <= k < ms.len() implies #[trigger] in_box(ms[k], m as int, n as int) by {
            assert(mines@[k].0 < m && mines@[k].1 < n);
        }
        assert(!ms.contains(user)) by {
            if ms.contains(user) {
                let k = choose|k: int| 0 <= k < ms.len() && ms[k] == user;
                assert(cands_view.contains(mines@[k]));
                let j = choose|j: int| 0 <= j < cands_view.len() && cands_view[j] == mines@[k];
                assert(is_candidate(cands_view[j], m, n, x_user, y_user));
            }
        }
        assert(ms == mines_from_draws(m, n, x_user, y_user, rng.drawn().skip(drawn0.len() as int)));
        assert(is_mine_layout(f0, field@, ms, m as int, n as int, no_mines as int, user));
    }
}

} // verus!
