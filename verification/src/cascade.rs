//! Uncovering a cell: every cell that touches the uncovered cell is shown,
//! and a shown cell that holds 0 is uncovered in turn, so that whole empty
//! regions open at once.
use crate::cells::CellSet;
use crate::grid::{
    adjacent, cell, get_neighbours, grid_positions, in_bounds, is_grid, lemma_adjacent_iff_direction,
    lemma_grid_positions, nb, neighbour_value, translate_to_grid,
};
use std::collections::VecDeque;
use vstd::prelude::*;

verus! {

/// Uncovering `a` goes on to `b`: `b` touches `a`, lies on the field and
/// holds 0.
pub open spec fn opens_onto(f: Seq<Vec<i8>>, a: (int, int), b: (int, int)) -> bool {
    adjacent(a, b) && in_bounds(f, b) && cell(f, b) == 0
}

/// A chain of positions along which uncovering spreads, one step at a time.
pub open spec fn is_cascade(f: Seq<Vec<i8>>, path: Seq<(int, int)>) -> bool {
    &&& path.len() > 0
    &&& forall|k: int| 0 <= k < path.len() - 1 ==> #[trigger] opens_onto(f, path[k], path[k + 1])
}

/// Uncovering `start` spreads as far as `e`.
pub open spec fn cascades_to(f: Seq<Vec<i8>>, start: (int, int), e: (int, int)) -> bool {
    exists|path: Seq<(int, int)>| #[trigger] is_cascade(f, path) && path[0] == start && path.last() == e
}

/// The positions that uncovering `start` reaches: `start` itself and every
/// 0-cell that a cascade from it reaches.
pub open spec fn cascade_from(f: Seq<Vec<i8>>, start: (int, int)) -> Set<(int, int)> {
    Set::new(|e: (int, int)| cascades_to(f, start, e))
}

/// A position on the field that holds neither a mine (`-1`) nor the value
/// that stands for "off the field" (`-2`).
pub open spec fn shows_number(f: Seq<Vec<i8>>, d: (int, int)) -> bool {
    in_bounds(f, d) && cell(f, d) != -1 && cell(f, d) != -2
}

/// The number-showing positions that touch some position of `ps`.
pub open spec fn shown_around(f: Seq<Vec<i8>>, ps: Set<(int, int)>) -> Set<(int, int)> {
    Set::new(
        |d: (int, int)| shows_number(f, d) && exists|e: (int, int)| #[trigger] ps.contains(e) && adjacent(e, d),
    )
}

/// What uncovering `start` shows to the player: every number-showing cell
/// that touches a position the cascade from `start` reaches.
pub open spec fn revealed_from(f: Seq<Vec<i8>>, start: (int, int)) -> Set<(int, int)> {
    shown_around(f, cascade_from(f, start))
}

/// Uncovering a cell shows every cell that touches it, lies on the board
/// and holds neither a mine nor `-2`.
pub proof fn lemma_reveal_shows_neighbours(f: Seq<Vec<i8>>, start: (int, int), d: (int, int))
    requires
        shows_number(f, d),
        adjacent(start, d),
    ensures
        revealed_from(f, start).contains(d),
{
    assert(is_cascade(f, seq![start]));
    assert(cascades_to(f, start, start));
    assert(cascade_from(f, start).contains(start));
}

/// A shown 0 spreads: every number-showing cell that touches a cell with
/// 0 that uncovering shows is shown too.
pub proof fn lemma_zero_spreads(f: Seq<Vec<i8>>, start: (int, int), e: (int, int), d: (int, int))
    requires
        revealed_from(f, start).contains(e),
        cell(f, e) == 0,
        shows_number(f, d),
        adjacent(e, d),
    ensures
        revealed_from(f, start).contains(d),
{
    let c = choose|c: (int, int)| #[trigger] cascade_from(f, start).contains(c) && adjacent(c, e);
    lemma_cascade_extend(f, start, c, e);
    assert(cascade_from(f, start).contains(e));
}

/// Nothing farther is shown: every cell that uncovering shows touches the
/// start or a shown cell with 0.
pub proof fn lemma_revealed_touches(f: Seq<Vec<i8>>, start: (int, int), d: (int, int))
    requires
        revealed_from(f, start).contains(d),
    ensures
        adjacent(start, d) || exists|e: (int, int)|
            #[trigger] revealed_from(f, start).contains(e) && cell(f, e) == 0 && adjacent(e, d),
{
    let c = choose|c: (int, int)| #[trigger] cascade_from(f, start).contains(c) && adjacent(c, d);
    if c != start {
        let path = choose|path: Seq<(int, int)>| #[trigger]
            is_cascade(f, path) && path[0] == start && path.last() == c;
        let k = path.len() - 2;
        assert(opens_onto(f, path[k], path[k + 1]));
        let shorter = path.drop_last();
        assert forall|t: int| 0 <= t < shorter.len() - 1 implies #[trigger] opens_onto(f, shorter[t], shorter[t + 1]) by {
            assert(opens_onto(f, path[t], path[t + 1]));
        }
        assert(is_cascade(f, shorter) && shorter[0] == start && shorter.last() == path[k]);
        assert(cascade_from(f, start).contains(path[k]));
        assert(revealed_from(f, start).contains(c));
    }
}

/// A position held by the work list, as integers.
pub open spec fn pos(s: (usize, usize)) -> (int, int) {
    (s.0 as int, s.1 as int)
}

/// A cascade can be extended by one more step.
pub proof fn lemma_cascade_extend(f: Seq<Vec<i8>>, start: (int, int), c: (int, int), d: (int, int))
    requires
        cascades_to(f, start, c),
        opens_onto(f, c, d),
    ensures
        cascades_to(f, start, d),
{
    let path = choose|path: Seq<(int, int)>| #[trigger]
        is_cascade(f, path) && path[0] == start && path.last() == c;
    let longer = path.push(d);
    assert forall|k: int| 0 <= k < longer.len() - 1 implies #[trigger] opens_onto(
        f,
        longer[k],
        longer[k + 1],
    ) by {
        if k < path.len() - 1 {
            assert(opens_onto(f, path[k], path[k + 1]));
        }
    }
    assert(is_cascade(f, longer) && longer[0] == start && longer.last() == d);
}

/// A set that holds the start of a cascade, and that every step leads back
/// into, holds the whole cascade.
pub proof fn lemma_closed_holds_cascade(f: Seq<Vec<i8>>, ps: Set<(int, int)>, path: Seq<(int, int)>)
    requires
        is_cascade(f, path),
        ps.contains(path[0]),
        forall|e: (int, int), d: (int, int)| ps.contains(e) && #[trigger] opens_onto(f, e, d) ==> ps.contains(d),
    ensures
        ps.contains(path.last()),
    decreases path.len(),
{
    if path.len() > 1 {
        let shorter = path.drop_last();
        assert forall|k: int| 0 <= k < shorter.len() - 1 implies #[trigger] opens_onto(
            f,
            shorter[k],
            shorter[k + 1],
        ) by {
            assert(opens_onto(f, path[k], path[k + 1]));
        }
        lemma_closed_holds_cascade(f, ps, shorter);
        let k = path.len() - 2;
        assert(opens_onto(f, path[k], path[k + 1]));
    }
}

/// The number-showing positions that touch `c`.
pub open spec fn shown_near(f: Seq<Vec<i8>>, c: (int, int)) -> Set<(int, int)> {
    Set::new(|d: (int, int)| shows_number(f, d) && adjacent(c, d))
}

/// The number-showing neighbours of `c` in the first `i` directions.
pub open spec fn shown_in_directions(f: Seq<Vec<i8>>, c: (int, int), i: int) -> Set<(int, int)> {
    Set::new(
        |d: (int, int)| shows_number(f, d) && exists|j: int| 0 <= j < i && d == #[trigger] nb(c, j),
    )
}

/// Adding one position to a set adds what shows around it.
proof fn lemma_shown_around_insert(f: Seq<Vec<i8>>, ps: Set<(int, int)>, c: (int, int))
    ensures
        shown_around(f, ps.insert(c)) == shown_around(f, ps).union(shown_near(f, c)),
        shown_near(f, c) == shown_in_directions(f, c, 8),
{
    assert forall|d: (int, int)| #[trigger] shown_around(f, ps.insert(c)).contains(d) implies shown_around(
        f,
        ps,
    ).union(shown_near(f, c)).contains(d) by {
        let e = choose|e: (int, int)| #[trigger] ps.insert(c).contains(e) && adjacent(e, d);
        if e != c {
            assert(ps.contains(e));
        }
    }
    assert forall|d: (int, int)| #[trigger] shown_around(f, ps).union(shown_near(f, c)).contains(
        d,
    ) implies shown_around(f, ps.insert(c)).contains(d) by {
        if shown_near(f, c).contains(d) {
            assert(ps.insert(c).contains(c));
        } else {
            let e = choose|e: (int, int)| #[trigger] ps.contains(e) && adjacent(e, d);
            assert(ps.insert(c).contains(e));
        }
    }
    assert(shown_around(f, ps.insert(c)) =~= shown_around(f, ps).union(shown_near(f, c)));
    assert forall|d: (int, int)| #[trigger] shown_near(f, c).contains(d) <==> shown_in_directions(
        f,
        c,
        8,
    ).contains(d) by {
        lemma_adjacent_iff_direction(c, d);
    }
    assert(shown_near(f, c) =~= shown_in_directions(f, c, 8));
}

/// A position with each coordinate taken as a `u8`, as the uncovered cells
/// are recorded.
pub open spec fn as_u8_pair(d: (int, int)) -> (int, int) {
    ((d.0 as u8) as int, (d.1 as u8) as int)
}

/// The positions of `s`, each coordinate taken as a `u8`.
pub open spec fn truncated(s: Set<(int, int)>) -> Set<(int, int)> {
    Set::new(|p: (int, int)| exists|d: (int, int)| #[trigger] s.contains(d) && as_u8_pair(d) == p)
}

/// On a board of at most 256 rows and columns, what uncovering reveals
/// lies on the board and keeps its coordinates when they are taken as `u8`.
pub proof fn lemma_truncated_small(f: Seq<Vec<i8>>, start: (int, int))
    requires
        is_grid(f),
        f.len() <= 256,
        f[0]@.len() <= 256,
    ensures
        truncated(revealed_from(f, start)) == revealed_from(f, start),
        forall|d: (int, int)| #[trigger] revealed_from(f, start).contains(d) ==> in_bounds(f, d),
{
    let r = revealed_from(f, start);
    assert forall|p: (int, int)| #[trigger] truncated(r).contains(p) <==> r.contains(p) by {
        if truncated(r).contains(p) {
            let d = choose|d: (int, int)| #[trigger] r.contains(d) && as_u8_pair(d) == p;
            assert(in_bounds(f, d));
        }
        if r.contains(p) {
            assert(in_bounds(f, p));
            assert(as_u8_pair(p) == p);
        }
    }
    assert(truncated(r) =~= r);
}

/// Uncovering adds at most one cell per cell of the board.
pub proof fn lemma_reveal_adds_at_most(seen: Set<(int, int)>, f: Seq<Vec<i8>>, start: (int, int))
    requires
        seen.finite(),
        is_grid(f),
    ensures
        seen.union(truncated(revealed_from(f, start))).finite(),
        seen.union(truncated(revealed_from(f, start))).len() <= seen.len() + f.len() * f[0]@.len(),
{
    let r = revealed_from(f, start);
    let rows = f.len() as int;
    let cols = f[0]@.len() as int;
    assert(r.subset_of(grid_positions(rows, cols))) by {
        assert forall|d: (int, int)| #[trigger] r.contains(d) implies grid_positions(rows, cols).contains(d) by {
            assert(shows_number(f, d));
        }
    }
    if cols == 0 {
        assert(r =~= Set::<(int, int)>::empty());
        assert(truncated(r) =~= Set::<(int, int)>::empty());
        assert(seen.union(truncated(r)) =~= seen);
    } else {
        lemma_grid_positions(rows, cols);
        vstd::set_lib::lemma_len_subset(r, grid_positions(rows, cols));
        let squash = |d: (int, int)| as_u8_pair(d);
        assert(r.map(squash) =~= truncated(r)) by {
            assert forall|p: (int, int)| #[trigger] truncated(r).contains(p) implies r.map(squash).contains(p) by {
                let d = choose|d: (int, int)| #[trigger] r.contains(d) && as_u8_pair(d) == p;
                assert(r.contains(d) && squash(d) == p);
            }
            assert forall|p: (int, int)| #[trigger] r.map(squash).contains(p) implies truncated(r).contains(p) by {
                let d = choose|d: (int, int)| r.contains(d) && squash(d) == p;
                assert(r.contains(d) && as_u8_pair(d) == p);
            }
        }
        vstd::set_lib::lemma_map_size_bound(r, truncated(r), squash);
        vstd::set_lib::lemma_len_union(seen, truncated(r));
    }
}

/// Taking coordinates as `u8` commutes with union.
proof fn lemma_truncated_union(a: Set<(int, int)>, b: Set<(int, int)>)
    ensures
        truncated(a.union(b)) == truncated(a).union(truncated(b)),
{
    assert forall|p: (int, int)| #[trigger] truncated(a.union(b)).contains(p) implies truncated(a).union(
        truncated(b),
    ).contains(p) by {
        let d = choose|d: (int, int)| #[trigger] a.union(b).contains(d) && as_u8_pair(d) == p;
        if a.contains(d) {
            assert(truncated(a).contains(p));
        } else {
            assert(truncated(b).contains(p));
        }
    }
    assert forall|p: (int, int)| #[trigger] truncated(a).union(truncated(b)).contains(p) implies truncated(
        a.union(b),
    ).contains(p) by {
        if truncated(a).contains(p) {
            let d = choose|d: (int, int)| #[trigger] a.contains(d) && as_u8_pair(d) == p;
            assert(a.union(b).contains(d));
        } else {
            let d = choose|d: (int, int)| #[trigger] b.contains(d) && as_u8_pair(d) == p;
            assert(a.union(b).contains(d));
        }
    }
    assert(truncated(a.union(b)) =~= truncated(a).union(truncated(b)));
}

/// The positions of a `rows` by `cols` grid that the cascade has reached.
struct Marks {
    marked: Vec<Vec<bool>>,
    rows: usize,
    cols: usize,
}

impl View for Marks {
    type V = Set<(int, int)>;

    closed spec fn view(&self) -> Set<(int, int)> {
        Set::new(|p: (int, int)| 0 <= p.0 < self.rows && 0 <= p.1 < self.cols && self.marked@[p.0]@[p.1])
    }
}

impl Marks {
    spec fn wf(&self) -> bool {
        &&& self.marked@.len() == self.rows
        &&& forall|r: int| 0 <= r < self.rows ==> #[trigger] self.marked@[r]@.len() == self.cols
    }

    /// No position marked.
    fn new(rows: usize, cols: usize) -> (m: Self)
        ensures
            m.wf(),
            m.rows == rows,
            m.cols == cols,
            m@ == Set::<(int, int)>::empty(),
    {
        let mut marked: Vec<Vec<bool>> = Vec::new();
        let mut r: usize = 0;
        while r < rows
            invariant
                r <= rows,
                marked@.len() == r,
                forall|i: int| 0 <= i < r ==> #[trigger] marked@[i]@ == Seq::new(cols as nat, |c: int| false),
            decreases rows - r,
        {
            marked.push(vec![false; cols]);
            proof {
                assert(marked@[r as int]@ =~= Seq::new(cols as nat, |c: int| false));
            }
            r = r + 1;
        }
        let m = Marks { marked, rows, cols };
        assert(m@ =~= Set::<(int, int)>::empty());
        m
    }

    /// Marks the position `(r, c)`.
    fn mark(&mut self, r: usize, c: usize)
        requires
            old(self).wf(),
            r < old(self).rows,
            c < old(self).cols,
        ensures
            final(self).wf(),
            final(self).rows == old(self).rows,
            final(self).cols == old(self).cols,
            final(self)@ == old(self)@.insert((r as int, c as int)),
    {
        let ghost before = self.marked@;
        let ghost old_view = self@;
        self.marked[r][c] = true;
        proof {
            assert forall|i: int| 0 <= i < self.rows implies #[trigger] self.marked@[i]@.len() == self.cols by {
                if i == r {
                    assert(self.marked@[i]@ == before[i]@.update(c as int, true));
                } else {
                    assert(self.marked@[i] == before[i]);
                }
            }
            assert forall|p: (int, int)| #[trigger] self@.contains(p) <==> old_view.insert((r as int, c as int)).contains(p) by {
                if 0 <= p.0 < self.rows && p.0 != r {
                    assert(self.marked@[p.0] == before[p.0]);
                }
                if p.0 == r {
                    assert(self.marked@[p.0]@ == before[p.0]@.update(c as int, true));
                }
            }
            assert(self@ =~= old_view.insert((r as int, c as int)));
        }
    }

    /// Whether `(r, c)` is marked.
    fn is_marked(&self, r: usize, c: usize) -> (b: bool)
        requires
            self.wf(),
            r < self.rows,
            c < self.cols,
        ensures
            b == self@.contains((r as int, c as int)),
    {
        self.marked[r][c]
    }

    /// At most all `rows * cols` positions are marked.
    proof fn lemma_bounded(&self)
        requires
            self.cols > 0,
        ensures
            self@.finite(),
            self@.len() <= self.rows * self.cols,
    {
        lemma_grid_positions(self.rows as int, self.cols as int);
        assert(self@.subset_of(grid_positions(self.rows as int, self.cols as int)));
        vstd::set_lib::lemma_len_subset(self@, grid_positions(self.rows as int, self.cols as int));
    }
}

/// Shows every cell that uncovering `(x, y)` reveals: the cascade from
/// `(x, y)` spreads over touching cells that hold 0, and every cell that
/// touches a cell of the cascade and holds neither a mine nor `-2` is added
/// to `seen`, its coordinates taken as `u8`. `(x, y)` itself is added only
/// where it touches such a cell.
#[verifier::loop_isolation(false)]
pub fn reveal_neighbours(x: i32, y: i32, field: &Vec<Vec<i8>>, seen: &mut CellSet)
    requires
        is_grid(field@),
        0 <= x < field@.len(),
        0 <= y < field@[0]@.len(),
    ensures
        final(seen)@ == old(seen)@.union(truncated(revealed_from(field@, (x as int, y as int)))),
        final(seen)@.len() <= old(seen)@.len() + field@.len() * field@[0]@.len(),
{
    proof {
        seen.lemma_finite();
        lemma_reveal_adds_at_most(seen@, field@, (x as int, y as int));
    }
    let ghost f = field@;
    let ghost start = (x as int, y as int);
    let ghost seen0 = seen@;
    let rows = field.len();
    let cols = field[0].len();
    let mut queue: VecDeque<(usize, usize)> = VecDeque::new();
    queue.push_back((x as usize, y as usize));
    let mut explored = Marks::new(rows, cols);
    explored.mark(x as usize, y as usize);
    let ghost mut processed: Set<(int, int)> = Set::empty();
    proof {
        assert(is_cascade(f, seq![start]));
        assert(pos(queue@[0]) == start);
        assert(shown_around(f, processed) =~= Set::empty());
        assert(truncated(Set::<(int, int)>::empty()) =~= Set::empty());
        assert(seen@ =~= seen0.union(truncated(shown_around(f, processed))));
        explored.lemma_bounded();
    }
    while queue.len() > 0
        invariant
            explored.wf(),
            explored.rows == rows,
            explored.cols == cols,
            forall|k: int| 0 <= k < queue@.len() ==> #[trigger] in_bounds(f, pos(queue@[k])),
            forall|k: int|
                0 <= k < queue@.len() ==> explored@.contains(#[trigger] pos(queue@[k])) && !processed.contains(
                    pos(queue@[k]),
                ),
            forall|k1: int, k2: int|
                0 <= k1 < queue@.len() && 0 <= k2 < queue@.len() && k1 != k2 ==> #[trigger] pos(queue@[k1])
                    != #[trigger] pos(queue@[k2]),
            processed.subset_of(explored@),
            forall|p: (int, int)| #[trigger]
                explored@.contains(p) ==> processed.contains(p) || exists|k: int|
                    0 <= k < queue@.len() && #[trigger] pos(queue@[k]) == p,
            forall|p: (int, int)| #[trigger] explored@.contains(p) ==> cascades_to(f, start, p),
            forall|e: (int, int), d: (int, int)|
                processed.contains(e) && #[trigger] opens_onto(f, e, d) ==> explored@.contains(d),
            seen@ == seen0.union(truncated(shown_around(f, processed))),
            explored@.contains(start),
            explored@.finite(),
            explored@.len() <= rows * cols,
        decreases rows * cols - explored@.len() + queue@.len(),
    {
        let ghost queue_pre = queue@;
        let c = queue.pop_front().unwrap();
        let ghost cp = pos(c);
        let ghost len0 = explored@.len();
        let ghost queue_len0 = queue@.len();
        let ghost seen_before = seen@;
        proof {
            assert(queue_pre[0] == c);
            assert(in_bounds(f, pos(queue_pre[0])));
            assert forall|k: int| 0 <= k < queue@.len() implies #[trigger] pos(queue@[k]) != cp by {
                assert(queue_pre[k + 1] == queue@[k]);
                assert(pos(queue_pre[k + 1]) != pos(queue_pre[0]));
            }
            assert forall|p: (int, int)| #[trigger] explored@.contains(p) implies processed.contains(p)
                || p == cp || exists|k: int| 0 <= k < queue@.len() && #[trigger] pos(queue@[k]) == p by {
                if !processed.contains(p) && p != cp {
                    let k = choose|k: int| 0 <= k < queue_pre.len() && #[trigger] pos(queue_pre[k]) == p;
                    assert(k != 0);
                    assert(queue_pre[k] == queue@[k - 1]);
                }
            }
            assert(truncated(shown_in_directions(f, cp, 0)) =~= Set::empty());
            assert(seen@ =~= seen_before.union(truncated(shown_in_directions(f, cp, 0))));
        }
        let neighbours = get_neighbours(c.0, c.1, field);
        let mut i: usize = 0;
        while i < 8
            invariant
                0 <= i <= 8,
                explored.wf(),
                explored.rows == rows,
                explored.cols == cols,
                forall|k: int| 0 <= k < queue@.len() ==> #[trigger] in_bounds(f, pos(queue@[k])),
                forall|k: int|
                    0 <= k < queue@.len() ==> explored@.contains(#[trigger] pos(queue@[k]))
                        && !processed.contains(pos(queue@[k])) && pos(queue@[k]) != cp,
                forall|k1: int, k2: int|
                    0 <= k1 < queue@.len() && 0 <= k2 < queue@.len() && k1 != k2 ==> #[trigger] pos(
                        queue@[k1],
                    ) != #[trigger] pos(queue@[k2]),
                processed.subset_of(explored@),
                explored@.contains(cp),
                forall|p: (int, int)| #[trigger]
                    explored@.contains(p) ==> processed.contains(p) || p == cp || exists|k: int|
                        0 <= k < queue@.len() && #[trigger] pos(queue@[k]) == p,
                forall|p: (int, int)| #[trigger] explored@.contains(p) ==> cascades_to(f, start, p),
                forall|e: (int, int), d: (int, int)|
                    processed.contains(e) && #[trigger] opens_onto(f, e, d) ==> explored@.contains(d),
                forall|j: int|
                    0 <= j < i && #[trigger] opens_onto(f, cp, nb(cp, j)) ==> explored@.contains(
                        nb(cp, j),
                    ),
                seen@ == seen_before.union(truncated(shown_in_directions(f, cp, i as int))),
                explored@.contains(start),
                explored@.finite(),
                explored@.len() + queue_len0 == len0 + queue@.len(),
            decreases 8 - i,
        {
            let v = neighbours[i];
            let ghost seen_mid = seen@;
            if v != -2 && v != -1 {
                let (dx, dy) = translate_to_grid(i as i32);
                proof {
                    assert(in_bounds(f, nb(cp, i as int)));
                }
                let nx: usize = if dx < 0 {
                    c.0 - 1
                } else if dx > 0 {
                    c.0 + 1
                } else {
                    c.0
                };
                let ny: usize = if dy < 0 {
                    c.1 - 1
                } else if dy > 0 {
                    c.1 + 1
                } else {
                    c.1
                };
                let ghost d = (nx as int, ny as int);
                assert(d == nb(cp, i as int));
                if v == 0 && !explored.is_marked(nx, ny) {
                    proof {
                        lemma_adjacent_iff_direction(cp, d);
                        assert(opens_onto(f, cp, d));
                        lemma_cascade_extend(f, start, cp, d);
                    }
                    let ghost st_before = queue@;
                    explored.mark(nx, ny);
                    queue.push_back((nx, ny));
                    proof {
                        assert(pos(queue@[queue@.len() - 1]) == d);
                        assert forall|p: (int, int)| #[trigger] explored@.contains(p) implies processed.contains(p)
                            || p == cp || exists|k: int| 0 <= k < queue@.len() && #[trigger] pos(queue@[k]) == p by {
                            if p == d {
                                assert(pos(queue@[queue@.len() - 1]) == p);
                            } else if !processed.contains(p) && p != cp {
                                let k = choose|k: int| 0 <= k < st_before.len() && #[trigger] pos(st_before[k]) == p;
                                assert(st_before[k] == queue@[k]);
                            }
                        }
                    }
                }
                seen.insert(nx as u8, ny as u8);
                proof {
                    assert(shown_in_directions(f, cp, i + 1) =~= shown_in_directions(f, cp, i as int).insert(d)) by {
                        assert forall|dd: (int, int)| #[trigger] shown_in_directions(f, cp, i + 1).contains(dd) implies shown_in_directions(f, cp, i as int).insert(d).contains(dd) by {
                            let j = choose|j: int| 0 <= j < i + 1 && dd == #[trigger] nb(cp, j);
                            if j < i {
                                assert(shown_in_directions(f, cp, i as int).contains(dd));
                            }
                        }
                        assert forall|dd: (int, int)| #[trigger] shown_in_directions(f, cp, i as int).insert(d).contains(dd) implies shown_in_directions(f, cp, i + 1).contains(dd) by {
                            if dd != d {
                                let j = choose|j: int| 0 <= j < i && dd == #[trigger] nb(cp, j);
                                assert(0 <= j < i + 1 && dd == nb(cp, j));
                            }
                        }
                    }
                    lemma_truncated_union(shown_in_directions(f, cp, i as int), set![d]);
                    assert(shown_in_directions(f, cp, i as int).insert(d) =~= shown_in_directions(f, cp, i as int).union(set![d]));
                    assert(truncated(set![d]) =~= set![as_u8_pair(d)]) by {
                        assert forall|p: (int, int)| #[trigger] truncated(set![d]).contains(p) implies p == as_u8_pair(d) by {
                            let e = choose|e: (int, int)| #[trigger] set![d].contains(e) && as_u8_pair(e) == p;
                        }
                        assert(set![d].contains(d));
                    }
                    assert(seen@ =~= seen_before.union(truncated(shown_in_directions(f, cp, i + 1))));
                }
            } else {
                proof {
                    assert(shown_in_directions(f, cp, i + 1) =~= shown_in_directions(f, cp, i as int)) by {
                        assert forall|dd: (int, int)| #[trigger] shown_in_directions(f, cp, i + 1).contains(dd) implies shown_in_directions(f, cp, i as int).contains(dd) by {
                            let j = choose|j: int| 0 <= j < i + 1 && dd == #[trigger] nb(cp, j);
                            if j == i {
                                assert(neighbour_value(f, cp, i as int) == v);
                            }
                        }
                        assert forall|dd: (int, int)| #[trigger] shown_in_directions(f, cp, i as int).contains(dd) implies shown_in_directions(f, cp, i + 1).contains(dd) by {
                            let j = choose|j: int| 0 <= j < i && dd == #[trigger] nb(cp, j);
                            assert(0 <= j < i + 1 && dd == nb(cp, j));
                        }
                    }
                }
            }
            i = i + 1;
        }
        proof {
            lemma_shown_around_insert(f, processed, cp);
            lemma_truncated_union(shown_around(f, processed), shown_near(f, cp));
            assert(seen@ =~= seen0.union(truncated(shown_around(f, processed.insert(cp)))));
            assert forall|d: (int, int)| #[trigger] opens_onto(f, cp, d) implies explored@.contains(d) by {
                lemma_adjacent_iff_direction(cp, d);
                assert(opens_onto(f, cp, nb(cp, crate::grid::direction(cp, d))));
            }
            processed = processed.insert(cp);
            explored.lemma_bounded();
        }
    }
    proof {
        assert forall|p: (int, int)| #[trigger] cascade_from(f, start).contains(p) <==> processed.contains(p) by {
            if cascades_to(f, start, p) {
                let path = choose|path: Seq<(int, int)>| #[trigger]
                    is_cascade(f, path) && path[0] == start && path.last() == p;
                lemma_closed_holds_cascade(f, processed, path);
            }
        }
        assert(cascade_from(f, start) =~= processed);
    }
}

} // verus!
