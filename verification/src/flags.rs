//! Counting flags: how many cells carry a flag, and how many of those hide
//! a mine.
use vstd::prelude::*;

verus! {

/// Column `c` of a row carries a flag that counts: any flag when
/// `mines_only` is false, else only a flag on a mine.
pub open spec fn flag_counts(flags: Seq<bool>, row: Seq<i8>, mines_only: bool, c: int) -> bool {
    &&& 0 <= c < flags.len()
    &&& flags[c]
    &&& (mines_only ==> c < row.len() && row[c] == -1)
}

/// The number of counting flags among the first `n` columns of a row.
pub open spec fn count_row(flags: Seq<bool>, row: Seq<i8>, mines_only: bool, n: int) -> int
    decreases n,
{
    if n <= 0 {
        0
    } else {
        count_row(flags, row, mines_only, n - 1) + if flag_counts(flags, row, mines_only, n - 1) {
            1int
        } else {
            0int
        }
    }
}

/// Row `r` of the field, or the empty row past its end.
pub open spec fn field_row(field: Seq<Vec<i8>>, r: int) -> Seq<i8> {
    if 0 <= r < field.len() {
        field[r]@
    } else {
        Seq::empty()
    }
}

/// The number of counting flags in the first `n` rows.
pub open spec fn count_rows(flags: Seq<Vec<bool>>, field: Seq<Vec<i8>>, mines_only: bool, n: int) -> int
    decreases n,
{
    if n <= 0 {
        0
    } else {
        count_rows(flags, field, mines_only, n - 1) + count_row(
            flags[n - 1]@,
            field_row(field, n - 1),
            mines_only,
            flags[n - 1]@.len() as int,
        )
    }
}

/// The number of flags placed.
pub open spec fn flag_count(flags: Seq<Vec<bool>>) -> int {
    count_rows(flags, Seq::empty(), false, flags.len() as int)
}

/// The number of flags that lie on a mine.
pub open spec fn flagged_mine_count(flags: Seq<Vec<bool>>, field: Seq<Vec<i8>>) -> int {
    count_rows(flags, field, true, flags.len() as int)
}

/// The two counters that the game keeps agree with the flags.
pub open spec fn counters_match(flags: Seq<Vec<bool>>, field: Seq<Vec<i8>>, guessed_mines: int, real_mines: int) -> bool {
    guessed_mines == flag_count(flags) && real_mines == flagged_mine_count(flags, field)
}

/// Changing one column of a row changes the row's count by what that
/// column contributes.
pub proof fn lemma_count_row_update(flags: Seq<bool>, row: Seq<i8>, mines_only: bool, n: int, y: int, b: bool)
    requires
        0 <= y < flags.len(),
        n <= flags.len(),
    ensures
        count_row(flags.update(y, b), row, mines_only, n) == count_row(flags, row, mines_only, n) + if y < n {
            (if flag_counts(flags.update(y, b), row, mines_only, y) { 1int } else { 0int }) - (if flag_counts(
                flags,
                row,
                mines_only,
                y,
            ) {
                1int
            } else {
                0int
            })
        } else {
            0int
        },
    decreases n,
{
    if n > 0 {
        lemma_count_row_update(flags, row, mines_only, n - 1, y, b);
    }
}

/// Changing one row changes the total by the change of that row's count.
pub proof fn lemma_count_rows_update(
    flags: Seq<Vec<bool>>,
    new_flags: Seq<Vec<bool>>,
    field: Seq<Vec<i8>>,
    mines_only: bool,
    n: int,
    x: int,
)
    requires
        flags.len() == new_flags.len(),
        0 <= x < flags.len(),
        n <= flags.len(),
        forall|r: int| 0 <= r < flags.len() && r != x ==> #[trigger] new_flags[r] == flags[r],
    ensures
        count_rows(new_flags, field, mines_only, n) == count_rows(flags, field, mines_only, n) + if x < n {
            count_row(new_flags[x]@, field_row(field, x), mines_only, new_flags[x]@.len() as int)
                - count_row(flags[x]@, field_row(field, x), mines_only, flags[x]@.len() as int)
        } else {
            0int
        },
    decreases n,
{
    if n > 0 {
        lemma_count_rows_update(flags, new_flags, field, mines_only, n - 1, x);
        if n - 1 != x {
            assert(new_flags[n - 1] == flags[n - 1]);
        }
    }
}

/// Counts are never negative, and a counting flag in the first `n`
/// columns makes the row's count at least one.
pub proof fn lemma_count_row_at_least(flags: Seq<bool>, row: Seq<i8>, mines_only: bool, n: int, y: int)
    ensures
        count_row(flags, row, mines_only, n) >= 0,
        0 <= y < n && flag_counts(flags, row, mines_only, y) ==> count_row(flags, row, mines_only, n) >= 1,
    decreases n,
{
    if n > 0 {
        lemma_count_row_at_least(flags, row, mines_only, n - 1, y);
    }
}

/// Row counts never make the total negative, and the total is at least the
/// count of any one of the first `n` rows.
pub proof fn lemma_count_rows_at_least(flags: Seq<Vec<bool>>, field: Seq<Vec<i8>>, mines_only: bool, n: int, x: int)
    requires
        n <= flags.len(),
    ensures
        count_rows(flags, field, mines_only, n) >= 0,
        0 <= x < n ==> count_rows(flags, field, mines_only, n) >= count_row(
            flags[x]@,
            field_row(field, x),
            mines_only,
            flags[x]@.len() as int,
        ),
    decreases n,
{
    if n > 0 {
        lemma_count_rows_at_least(flags, field, mines_only, n - 1, x);
        lemma_count_row_at_least(flags[n - 1]@, field_row(field, n - 1), mines_only, flags[n - 1]@.len() as int, 0);
    }
}

/// A flag on the board means the flag counter is at least one, and a flag
/// on a mine means the same of the real-mine counter.
pub proof fn lemma_flag_counted(flags: Seq<Vec<bool>>, field: Seq<Vec<i8>>, x: int, y: int)
    requires
        0 <= x < flags.len(),
        0 <= y < flags[x]@.len(),
        flags[x]@[y],
    ensures
        flag_count(flags) >= 1,
        0 <= x < field.len() && 0 <= y < field[x]@.len() && field[x]@[y] == -1 ==> flagged_mine_count(flags, field) >= 1,
{
    lemma_count_row_at_least(flags[x]@, Seq::empty(), false, flags[x]@.len() as int, y);
    lemma_count_rows_at_least(flags, Seq::empty(), false, flags.len() as int, x);
    lemma_count_row_at_least(flags[x]@, field_row(field, x), true, flags[x]@.len() as int, y);
    lemma_count_rows_at_least(flags, field, true, flags.len() as int, x);
}

/// No flag set means nothing to count.
pub proof fn lemma_no_flags(flags: Seq<Vec<bool>>, field: Seq<Vec<i8>>, mines_only: bool, n: int)
    requires
        n <= flags.len(),
        forall|r: int, c: int| 0 <= r < flags.len() && 0 <= c < flags[r]@.len() ==> !#[trigger] flags[r]@[c],
    ensures
        count_rows(flags, field, mines_only, n) == 0,
    decreases n,
{
    if n > 0 {
        lemma_no_flags(flags, field, mines_only, n - 1);
        lemma_no_flags_in_row(flags[n - 1]@, field_row(field, n - 1), mines_only, flags[n - 1]@.len() as int);
    }
}

/// A row without flags counts nothing.
proof fn lemma_no_flags_in_row(flags: Seq<bool>, row: Seq<i8>, mines_only: bool, n: int)
    requires
        forall|c: int| 0 <= c < flags.len() ==> !#[trigger] flags[c],
    ensures
        count_row(flags, row, mines_only, n) == 0,
    decreases n,
{
    if n > 0 {
        lemma_no_flags_in_row(flags, row, mines_only, n - 1);
    }
}

} // verus!
