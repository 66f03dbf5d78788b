//! The mine field as a grid of `i8` cells: `-1` is a mine, any other value
//! the number shown on the cell. The first index is the row, the second the
//! column.
use vstd::arithmetic::div_mod::{lemma_fundamental_div_mod, lemma_fundamental_div_mod_converse};
use vstd::prelude::*;
use vstd::set_lib::{lemma_int_range, lemma_map_size, set_int_range};

verus! {

/// Number of rows of a grid.
pub open spec fn num_rows<T>(f: Seq<Vec<T>>) -> int {
    f.len() as int
}

/// Number of columns of a grid: the length of its first row.
pub open spec fn num_cols<T>(f: Seq<Vec<T>>) -> int {
    if f.len() == 0 {
        0
    } else {
        f[0]@.len() as int
    }
}

/// A grid is a non-empty rectangle: every row is as long as the first.
pub open spec fn is_grid<T>(f: Seq<Vec<T>>) -> bool {
    &&& f.len() > 0
    &&& forall|r: int| 0 <= r < f.len() ==> #[trigger] f[r]@.len() == f[0]@.len()
}

/// The position `p` lies inside the grid.
pub open spec fn in_bounds<T>(f: Seq<Vec<T>>, p: (int, int)) -> bool {
    0 <= p.0 < num_rows(f) && 0 <= p.1 < num_cols(f)
}

/// The value stored at position `p`.
pub open spec fn cell<T>(f: Seq<Vec<T>>, p: (int, int)) -> T {
    f[p.0]@[p.1]
}

/// The eight directions, in the order NW, N, NE, W, E, SW, S, SE, as
/// (row, column) offsets.
pub open spec fn offset(i: int) -> (int, int) {
    if i == 0 {
        (-1, -1)
    } else if i == 1 {
        (-1, 0)
    } else if i == 2 {
        (-1, 1)
    } else if i == 3 {
        (0, -1)
    } else if i == 4 {
        (0, 1)
    } else if i == 5 {
        (1, -1)
    } else if i == 6 {
        (1, 0)
    } else {
        (1, 1)
    }
}

/// The neighbour of `p` in direction `i`.
pub open spec fn nb(p: (int, int), i: int) -> (int, int) {
    (p.0 + offset(i).0, p.1 + offset(i).1)
}

/// Two distinct positions that touch, by side or by corner.
pub open spec fn adjacent(a: (int, int), b: (int, int)) -> bool {
    &&& a != b
    &&& -1 <= a.0 - b.0 <= 1
    &&& -1 <= a.1 - b.1 <= 1
}

/// What the neighbour of `p` in direction `i` holds, or `-2` where that
/// neighbour lies outside the grid.
pub open spec fn neighbour_value(f: Seq<Vec<i8>>, p: (int, int), i: int) -> i8 {
    if in_bounds(f, nb(p, i)) {
        cell(f, nb(p, i))
    } else {
        -2i8
    }
}

/// The direction in which `b` lies from `a`, for adjacent positions.
pub open spec fn direction(a: (int, int), b: (int, int)) -> int {
    let k = (b.0 - a.0 + 1) * 3 + (b.1 - a.1 + 1);
    if k < 4 {
        k
    } else {
        k - 1
    }
}

/// The neighbours in the eight directions are exactly the adjacent positions.
pub proof fn lemma_adjacent_iff_direction(a: (int, int), b: (int, int))
    ensures
        adjacent(a, b) <==> exists|i: int| 0 <= i < 8 && b == #[trigger] nb(a, i),
        adjacent(a, b) ==> 0 <= direction(a, b) < 8 && b == nb(a, direction(a, b)),
{
    if adjacent(a, b) {
        assert(b == nb(a, direction(a, b)));
    }
    assert forall|i: int| 0 <= i < 8 && b == #[trigger] nb(a, i) implies adjacent(a, b) by {}
}

/// The eight directions run in reading order over the square around a
/// cell: each comes before the next by row, or in the same row by column.
/// With [`lemma_adjacent_iff_direction`], this fixes them as NW, N, NE, W,
/// E, SW, S, SE.
pub proof fn lemma_directions_in_reading_order(i: int, j: int)
    requires
        0 <= i < j < 8,
    ensures
        offset(i).0 < offset(j).0 || (offset(i).0 == offset(j).0 && offset(i).1 < offset(j).1),
{
}

/// The neighbour in direction `i` touches `p` and lies in direction `i`.
pub proof fn lemma_direction_of_nb(p: (int, int), i: int)
    requires
        0 <= i < 8,
    ensures
        adjacent(p, nb(p, i)),
        direction(p, nb(p, i)) == i,
{
}

/// The positions of a `rows` by `cols` grid.
pub open spec fn grid_positions(rows: int, cols: int) -> Set<(int, int)> {
    Set::new(|p: (int, int)| 0 <= p.0 < rows && 0 <= p.1 < cols)
}

/// A `rows` by `cols` grid has `rows * cols` positions.
pub proof fn lemma_grid_positions(rows: int, cols: int)
    requires
        rows >= 0,
        cols > 0,
    ensures
        grid_positions(rows, cols).finite(),
        grid_positions(rows, cols).len() == rows * cols,
{
    assert(rows * cols >= 0) by (nonlinear_arith)
        requires
            rows >= 0,
            cols > 0,
    ;
    let keys = set_int_range(0, rows * cols);
    lemma_int_range(0, rows * cols);
    let decode = |k: int| (k / cols, k % cols);
    let box_set = grid_positions(rows, cols);
    assert forall|a: int, b: int|
        keys.contains(a) && keys.contains(b) && #[trigger] decode(a) == #[trigger] decode(b) implies a == b by {
        lemma_fundamental_div_mod(a, cols);
        lemma_fundamental_div_mod(b, cols);
    }
    assert forall|p: (int, int)| box_set.contains(p) implies #[trigger] keys.map(decode).contains(p) by {
        let k = p.0 * cols + p.1;
        assert(k < rows * cols) by (nonlinear_arith)
            requires
                k == p.0 * cols + p.1,
                0 <= p.0 < rows,
                0 <= p.1 < cols,
        ;
        assert(0 <= k) by (nonlinear_arith)
            requires
                k == p.0 * cols + p.1,
                0 <= p.0,
                0 <= p.1,
                cols > 0,
        ;
        lemma_fundamental_div_mod_converse(k, cols, p.0, p.1);
        assert(keys.contains(k) && decode(k) == p);
    }
    assert forall|p: (int, int)| #[trigger] keys.map(decode).contains(p) implies box_set.contains(p) by {
        let k = choose|k: int| keys.contains(k) && decode(k) == p;
        lemma_fundamental_div_mod(k, cols);
        let q = k / cols;
        let r = k % cols;
        assert(0 <= q < rows) by (nonlinear_arith)
            requires
                k == cols * q + r,
                0 <= r < cols,
                0 <= k < rows * cols,
        ;
    }
    assert(keys.map(decode) =~= box_set);
    lemma_map_size(keys, box_set, decode);
}

/// The row and column offset of direction `i`: NW, N, NE, W, E, SW, S, SE
/// for `0..8`.
pub fn translate_to_grid(i: i32) -> (d: (i32, i32))
    requires
        0 <= i < 8,
    ensures
        (d.0 as int, d.1 as int) == offset(i as int),
{
    if i == 0 {
        (-1, -1)
    } else if i == 1 {
        (-1, 0)
    } else if i == 2 {
        (-1, 1)
    } else if i == 3 {
        (0, -1)
    } else if i == 4 {
        (0, 1)
    } else if i == 5 {
        (1, -1)
    } else if i == 6 {
        (1, 0)
    } else {
        (1, 1)
    }
}

/// The values of the eight neighbours of `(x, y)`, in the order NW, N, NE,
/// W, E, SW, S, SE; a neighbour outside the field reads `-2`.
pub fn get_neighbours(x: usize, y: usize, field: &Vec<Vec<i8>>) -> (neighbours: [i8; 8])
    requires
        is_grid(field@),
        x < field@.len(),
        y < field@[0].len(),
    ensures
        forall|i: int| 0 <= i < 8 ==> #[trigger] neighbours@[i] == neighbour_value(field@, (x as int, y as int), i),
{
    let rows = field.len();
    let cols = field[0].len();
    proof {
        if x > 0 {
            assert(field@[x - 1].len() == cols);
        }
        assert(field@[x as int].len() == cols);
        if x + 1 < rows {
            assert(field@[x + 1].len() == cols);
        }
    }
    let nw: i8 = if x == 0 || y == 0 { -2 } else { field[x - 1][y - 1] };
    let n: i8 = if x == 0 { -2 } else { field[x - 1][y] };
    let ne: i8 = if x == 0 || y + 1 >= cols { -2 } else { field[x - 1][y + 1] };
    let w: i8 = if y == 0 { -2 } else { field[x][y - 1] };
    let e: i8 = if y + 1 >= cols { -2 } else { field[x][y + 1] };
    let sw: i8 = if x + 1 >= rows || y == 0 { -2 } else { field[x + 1][y - 1] };
    let s: i8 = if x + 1 >= rows { -2 } else { field[x + 1][y] };
    let se: i8 = if x + 1 >= rows || y + 1 >= cols { -2 } else { field[x + 1][y + 1] };
    let neighbours: [i8; 8] = [nw, n, ne, w, e, sw, s, se];
    neighbours
}

} // verus!
