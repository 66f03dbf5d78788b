//! Laying mines: a mine is marked `-1` and every cell around it that holds
//! no mine counts one more.
use crate::grid::{
    adjacent, cell, direction, lemma_adjacent_iff_direction, lemma_direction_of_nb, nb, translate_to_grid,
};
use vstd::prelude::*;

verus! {

/// `q` lies in the first `m` rows and the first `n` columns.
pub open spec fn in_box(q: (int, int), m: int, n: int) -> bool {
    0 <= q.0 < m && 0 <= q.1 < n
}

/// `q` is a position of the (possibly ragged) field.
pub open spec fn on_field<T>(f: Seq<Vec<T>>, q: (int, int)) -> bool {
    0 <= q.0 < f.len() && 0 <= q.1 < f[q.0]@.len()
}

/// Two fields with rows of the same lengths.
pub open spec fn same_shape(f: Seq<Vec<i8>>, g: Seq<Vec<i8>>) -> bool {
    &&& f.len() == g.len()
    &&& forall|r: int|
        #![trigger f[r]@.len()]
        #![trigger g[r]@.len()]
        0 <= r < f.len() ==> f[r]@.len() == g[r]@.len()
}

/// The first `m` rows have at least `n` columns.
pub open spec fn holds_box(f: Seq<Vec<i8>>, m: int, n: int) -> bool {
    m <= f.len() && forall|r: int| 0 <= r < m ==> #[trigger] f[r]@.len() >= n
}

/// What a cell holding `v` holds once the neighbours of a new mine at
/// `point` are counted: one more where it touches `point`, lies in the box
/// and is no mine.
pub open spec fn bumped(v: int, point: (int, int), q: (int, int), m: int, n: int) -> int {
    if in_box(q, m, n) && adjacent(point, q) && v != -1 {
        v + 1
    } else {
        v
    }
}

/// Counts a new mine at `point` in its neighbours: every cell that touches
/// `point`, lies within the first `m` rows and `n` columns, and is not
/// itself a mine, goes up by one.
pub fn update_neighbours(field: &mut Vec<Vec<i8>>, m: u8, n: u8, point: &(u8, u8))
    requires
        point.0 < m,
        point.1 < n,
        holds_box(old(field)@, m as int, n as int),
        forall|q: (int, int)|
            in_box(q, m as int, n as int) && adjacent((point.0 as int, point.1 as int), q) && cell(old(field)@, q)
                != -1 ==> #[trigger] cell(old(field)@, q) < 127,
    ensures
        same_shape(old(field)@, final(field)@),
        forall|q: (int, int)|
            on_field(old(field)@, q) ==> #[trigger] cell(final(field)@, q) as int == bumped(
                cell(old(field)@, q) as int,
                (point.0 as int, point.1 as int),
                q,
                m as int,
                n as int,
            ),
{
    let ghost f0 = field@;
    let ghost pt = (point.0 as int, point.1 as int);
    let mut i: usize = 0;
    while i < 8
        invariant
            0 <= i <= 8,
            pt == (point.0 as int, point.1 as int),
            point.0 < m,
            point.1 < n,
            holds_box(f0, m as int, n as int),
            forall|q: (int, int)|
                in_box(q, m as int, n as int) && adjacent(pt, q) && cell(f0, q) != -1 ==> #[trigger] cell(f0, q) < 127,
            same_shape(f0, field@),
            forall|q: (int, int)|
                on_field(f0, q) ==> #[trigger] cell(field@, q) as int == if in_box(q, m as int, n as int)
                    && adjacent(pt, q) && direction(pt, q) < i && cell(f0, q) != -1 {
                    cell(f0, q) + 1
                } else {
                    cell(f0, q) as int
                },
        decreases 8 - i,
    {
        let (dr, dc) = translate_to_grid(i as i32);
        let r: i32 = point.0 as i32 + dr;
        let c: i32 = point.1 as i32 + dc;
        let ghost q = (r as int, c as int);
        proof {
            assert(q == nb(pt, i as int));
            lemma_direction_of_nb(pt, i as int);
        }
        if 0 <= r && r < m as i32 && 0 <= c && c < n as i32 {
            let ru = r as usize;
            let cu = c as usize;
            proof {
                assert(f0[r as int]@.len() >= n);
                assert(on_field(f0, q));
                assert(cell(field@, q) == cell(f0, q));
            }
            if field[ru][cu] != -1 {
                let ghost before = field@;
                field[ru][cu] = field[ru][cu] + 1;
                proof {
                    assert forall|p: (int, int)| on_field(f0, p) && p != q implies #[trigger] cell(field@, p)
                        == cell(before, p) by {
                        if p.0 == q.0 {
                            assert(field@[p.0]@ == before[p.0]@.update(q.1, (cell(before, q) + 1) as i8));
                        }
                    }
                }
            }
        }
        proof {
            assert forall|p: (int, int)| on_field(f0, p) implies #[trigger] cell(field@, p) as int == if in_box(
                p,
                m as int,
                n as int,
            ) && adjacent(pt, p) && direction(pt, p) < i + 1 && cell(f0, p) != -1 {
                cell(f0, p) + 1
            } else {
                cell(f0, p) as int
            } by {
                lemma_adjacent_iff_direction(pt, p);
                if adjacent(pt, p) && direction(pt, p) == i {
                    assert(p == q);
                }
            }
        }
        i = i + 1;
    }
    proof {
        assert forall|q: (int, int)| on_field(f0, q) implies #[trigger] cell(field@, q) as int == bumped(
            cell(f0, q) as int,
            pt,
            q,
            m as int,
            n as int,
        ) by {
            lemma_adjacent_iff_direction(pt, q);
        }
    }
}

/// The value at `q` once the mines `ms` are laid one after the other on
/// `f`: each mine turns its own cell into `-1` and counts itself in the
/// cells around it (see [`bumped`]).
pub open spec fn cell_after(f: Seq<Vec<i8>>, ms: Seq<(int, int)>, m: int, n: int, q: (int, int)) -> int
    decreases ms.len(),
{
    if ms.len() == 0 {
        cell(f, q) as int
    } else if q == ms.last() {
        -1
    } else {
        bumped(cell_after(f, ms.drop_last(), m, n, q), ms.last(), q, m, n)
    }
}

/// The number of directions among the first `k` in which `q` touches a
/// position of `ms`.
pub open spec fn mines_around(ms: Set<(int, int)>, q: (int, int), k: int) -> int
    decreases k,
{
    if k <= 0 {
        0
    } else {
        mines_around(ms, q, k - 1) + if ms.contains(nb(q, k - 1)) {
            1int
        } else {
            0int
        }
    }
}

/// The number of positions of `ms` that touch `q`.
pub open spec fn adjacent_mines(ms: Set<(int, int)>, q: (int, int)) -> int {
    mines_around(ms, q, 8)
}

/// Mine positions given as pairs of `u8`, taken as integers.
pub open spec fn mine_positions(v: Seq<(u8, u8)>) -> Seq<(int, int)> {
    v.map_values(|p: (u8, u8)| (p.0 as int, p.1 as int))
}

/// Every position of `ms` lies in the box, and none comes twice.
pub open spec fn valid_mines(ms: Seq<(int, int)>, m: int, n: int) -> bool {
    &&& ms.no_duplicates()
    &&& forall|k: int| 0 <= k < ms.len() ==> #[trigger] in_box(ms[k], m, n)
}

/// At most `k` of the first `k` directions hold a mine.
pub proof fn lemma_mines_around_bound(ms: Set<(int, int)>, q: (int, int), k: int)
    requires
        0 <= k,
    ensures
        0 <= mines_around(ms, q, k) <= k,
    decreases k,
{
    if k > 0 {
        lemma_mines_around_bound(ms, q, k - 1);
    }
}

/// A new mine at `p` counts once around `q` when it touches `q` in one of
/// the first `k` directions.
pub proof fn lemma_mines_around_insert(ms: Set<(int, int)>, p: (int, int), q: (int, int), k: int)
    requires
        0 <= k <= 8,
        !ms.contains(p),
    ensures
        mines_around(ms.insert(p), q, k) == mines_around(ms, q, k) + if adjacent(q, p) && direction(q, p) < k {
            1int
        } else {
            0int
        },
    decreases k,
{
    lemma_adjacent_iff_direction(q, p);
    if k > 0 {
        lemma_mines_around_insert(ms, p, q, k - 1);
        lemma_direction_of_nb(q, k - 1);
    }
}

/// The positions in the first `k` entries of `ms`.
proof fn lemma_take_to_set(ms: Seq<(int, int)>, k: int)
    requires
        0 <= k < ms.len(),
    ensures
        ms.take(k + 1).to_set() == ms.take(k).to_set().insert(ms[k]),
        ms.take(k + 1).drop_last() == ms.take(k),
        ms.take(k + 1).last() == ms[k],
{
    let longer = ms.take(k + 1);
    let shorter = ms.take(k);
    assert(longer.drop_last() =~= shorter);
    assert forall|x: (int, int)| #[trigger] longer.to_set().contains(x) <==> shorter.to_set().insert(ms[k]).contains(x) by {
        if longer.contains(x) {
            let j = choose|j: int| 0 <= j < longer.len() && #[trigger] longer[j] == x;
            if j < k {
                assert(shorter[j] == x);
            }
        }
        if shorter.contains(x) {
            let j = choose|j: int| 0 <= j < shorter.len() && #[trigger] shorter[j] == x;
            assert(longer[j] == x);
        }
        if x == ms[k] {
            assert(longer[k] == x);
        }
    }
    assert(longer.to_set() =~= shorter.to_set().insert(ms[k]));
}

/// Laying distinct mines raises a cell by at most the number of mines that
/// touch it.
pub proof fn lemma_cell_after_bound(f: Seq<Vec<i8>>, ms: Seq<(int, int)>, m: int, n: int, q: (int, int))
    requires
        ms.no_duplicates(),
    ensures
        cell_after(f, ms, m, n, q) <= (if cell(f, q) < -1 { -1 } else { cell(f, q) as int }) + adjacent_mines(ms.to_set(), q),
    decreases ms.len(),
{
    lemma_mines_around_bound(ms.to_set(), q, 8);
    if ms.len() > 0 {
        let k = ms.len() - 1;
        assert(ms.take(k + 1) == ms);
        lemma_take_to_set(ms, k);
        assert(ms.drop_last().no_duplicates());
        lemma_cell_after_bound(f, ms.drop_last(), m, n, q);
        assert(!ms.drop_last().to_set().contains(ms.last()));
        lemma_mines_around_insert(ms.drop_last().to_set(), ms.last(), q, 8);
        lemma_adjacent_iff_direction(q, ms.last());
        lemma_mines_around_bound(ms.drop_last().to_set(), q, 8);
    }
}

/// Laid on a field whose cells in the box hold no negative value other
/// than `-1`, distinct mines in the box leave each cell of the box holding
/// `-1` where it is a mine or held `-1` before, and else its old value plus
/// the number of mines that touch it.
pub proof fn lemma_mine_counts(f: Seq<Vec<i8>>, ms: Seq<(int, int)>, m: int, n: int, q: (int, int))
    requires
        valid_mines(ms, m, n),
        in_box(q, m, n),
        cell(f, q) >= -1,
    ensures
        cell_after(f, ms, m, n, q) == if ms.contains(q) || cell(f, q) == -1 {
            -1
        } else {
            cell(f, q) + adjacent_mines(ms.to_set(), q)
        },
    decreases ms.len(),
{
    if ms.len() == 0 {
        assert(ms.to_set() =~= Set::<(int, int)>::empty());
        assert(adjacent_mines(Set::<(int, int)>::empty(), q) == 0) by {
            lemma_no_mines_around(q, 8);
        }
    } else {
        let k = ms.len() - 1;
        assert(ms.take(k + 1) == ms);
        lemma_take_to_set(ms, k);
        let prev = ms.drop_last();
        assert(prev.no_duplicates());
        assert forall|j: int| 0 <= j < prev.len() implies #[trigger] in_box(prev[j], m, n) by {
            assert(prev[j] == ms[j]);
        }
        lemma_mine_counts(f, prev, m, n, q);
        lemma_mines_around_bound(prev.to_set(), q, 8);
        assert(!prev.to_set().contains(ms.last()));
        lemma_mines_around_insert(prev.to_set(), ms.last(), q, 8);
        lemma_adjacent_iff_direction(q, ms.last());
        assert(ms.contains(q) <==> prev.contains(q) || q == ms.last()) by {
            assert(ms.to_set().contains(q) <==> ms.contains(q));
            assert(prev.to_set().contains(q) <==> prev.contains(q));
        }
        assert(in_box(ms[k], m, n));
    }
}

/// No direction holds a mine when there are none.
proof fn lemma_no_mines_around(q: (int, int), k: int)
    requires
        0 <= k,
    ensures
        mines_around(Set::<(int, int)>::empty(), q, k) == 0,
    decreases k,
{
    if k > 0 {
        lemma_no_mines_around(q, k - 1);
    }
}

/// Distinct pairs of `u8` stay distinct as integers.
pub proof fn lemma_mine_positions(v: Seq<(u8, u8)>)
    ensures
        mine_positions(v).len() == v.len(),
        forall|k: int| 0 <= k < v.len() ==> #[trigger] mine_positions(v)[k] == (v[k].0 as int, v[k].1 as int),
        v.no_duplicates() ==> mine_positions(v).no_duplicates(),
{
}

/// Lays the mines `mines` one after the other: each mine's cell becomes
/// `-1` and every cell around it in the first `m` rows and `n` columns that
/// is no mine counts one more.
pub fn lay_mines(field: &mut Vec<Vec<i8>>, m: u8, n: u8, mines: &Vec<(u8, u8)>)
    requires
        holds_box(old(field)@, m as int, n as int),
        mines@.no_duplicates(),
        forall|k: int| 0 <= k < mines@.len() ==> #[trigger] mines@[k].0 < m && mines@[k].1 < n,
        forall|q: (int, int)| in_box(q, m as int, n as int) ==> #[trigger] cell(old(field)@, q) <= 119,
    ensures
        same_shape(old(field)@, final(field)@),
        forall|q: (int, int)|
            on_field(old(field)@, q) ==> #[trigger] cell(final(field)@, q) as int == cell_after(
                old(field)@,
                mine_positions(mines@),
                m as int,
                n as int,
                q,
            ),
{
    let ghost f0 = field@;
    let ghost ms = mine_positions(mines@);
    proof {
        lemma_mine_positions(mines@);
        assert(ms.take(0) =~= Seq::<(int, int)>::empty());
    }
    let mut k: usize = 0;
    while k < mines.len()
        invariant
            0 <= k <= mines@.len(),
            ms == mine_positions(mines@),
            ms.len() == mines@.len(),
            ms.no_duplicates(),
            forall|j: int| 0 <= j < mines@.len() ==> #[trigger] ms[j] == (mines@[j].0 as int, mines@[j].1 as int),
            forall|j: int| 0 <= j < mines@.len() ==> #[trigger] mines@[j].0 < m && mines@[j].1 < n,
            holds_box(f0, m as int, n as int),
            forall|q: (int, int)| in_box(q, m as int, n as int) ==> #[trigger] cell(f0, q) <= 119,
            same_shape(f0, field@),
            forall|q: (int, int)|
                on_field(f0, q) ==> #[trigger] cell(field@, q) as int == cell_after(f0, ms.take(k as int), m as int, n as int, q),
        decreases mines@.len() - k,
    {
        let point = mines[k];
        let ghost p = (point.0 as int, point.1 as int);
        let ghost before = field@;
        proof {
            assert(ms[k as int] == p);
            lemma_take_to_set(ms, k as int);
            assert(!ms.take(k as int).contains(p)) by {
                if ms.take(k as int).contains(p) {
                    let j = choose|j: int| 0 <= j < k && #[trigger] ms.take(k as int)[j] == p;
                    assert(ms[j] == ms[k as int]);
                }
            }
            assert(ms.take(k as int).no_duplicates());
            assert(f0[p.0]@.len() >= n);
            assert(on_field(f0, p));
        }
        field[point.0 as usize][point.1 as usize] = -1;
        proof {
            assert forall|q: (int, int)| on_field(f0, q) && q != p implies #[trigger] cell(field@, q) == cell(before, q) by {
                if q.0 == p.0 {
                    assert(field@[q.0]@ == before[q.0]@.update(p.1, -1i8));
                }
            }
            assert(same_shape(f0, field@)) by {
                assert forall|r: int| 0 <= r < f0.len() implies #[trigger] f0[r]@.len() == field@[r]@.len() by {
                    assert(before[r]@.len() == f0[r]@.len());
                }
            }
            assert forall|r: int| 0 <= r < m implies #[trigger] field@[r]@.len() >= n by {
                assert(f0[r]@.len() == field@[r]@.len());
            }
            assert forall|q: (int, int)|
                in_box(q, m as int, n as int) && adjacent(p, q) && cell(field@, q) != -1 implies #[trigger] cell(field@, q) < 127 by {
                assert(f0[q.0]@.len() >= n);
                assert(on_field(f0, q));
                let t = ms.take(k as int);
                lemma_cell_after_bound(f0, t, m as int, n as int, q);
                lemma_mines_around_insert(t.to_set(), p, q, 8);
                lemma_adjacent_iff_direction(q, p);
                lemma_mines_around_bound(t.to_set().insert(p), q, 8);
            }
        }
        update_neighbours(field, m, n, &point);
        proof {
            assert forall|q: (int, int)| on_field(f0, q) implies #[trigger] cell(field@, q) as int == cell_after(
                f0,
                ms.take(k + 1),
                m as int,
                n as int,
                q,
            ) by {
                assert(ms.take(k + 1).drop_last() == ms.take(k as int));
            }
        }
        k = k + 1;
    }
    proof {
        assert(ms.take(mines@.len() as int) == ms);
    }
}

} // verus!
