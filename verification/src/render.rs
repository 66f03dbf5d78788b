//! The board as the player sees it, as text: one line per row, led by the
//! row's number, then a rule and the column numbers.
use crate::cells::CellSet;
use crate::input::{all_digits, digits_value, is_digit};
use vstd::prelude::*;

verus! {

/// The character of the decimal digit `d`.
pub open spec fn digit_char(d: int) -> char {
    (d + 48) as char
}

/// The decimal digits of `v`.
pub open spec fn decimal(v: nat) -> Seq<char>
    decreases v,
{
    if v < 10 {
        seq![digit_char(v as int)]
    } else {
        decimal(v / 10).push(digit_char((v % 10) as int))
    }
}

/// `v` in decimal, with a leading `-` when negative.
pub open spec fn signed_decimal(v: int) -> Seq<char> {
    if v < 0 {
        seq!['-'] + decimal((-v) as nat)
    } else {
        decimal(v as nat)
    }
}

/// `w` spaces.
pub open spec fn padding(w: nat) -> Seq<char> {
    Seq::new(w, |i: int| ' ')
}

/// The spaces after each cell: one per started ten columns.
pub open spec fn pad_width(cols: int) -> nat {
    ((cols + 9) / 10) as nat
}

/// Appends the decimal digits of `v`.
fn push_decimal(out: &mut Vec<char>, v: u64)
    ensures
        final(out)@ == old(out)@ + decimal(v as nat),
    decreases v,
{
    if v >= 10 {
        push_decimal(out, v / 10);
    }
    let d: u8 = (v % 10) as u8;
    let c: char = (d + 48) as char;
    out.push(c);
    proof {
        if v >= 10 {
            assert(decimal(v as nat) == decimal((v / 10) as nat).push(digit_char((v % 10) as int)));
        }
    }
    assert(out@ =~= old(out)@ + decimal(v as nat));
}

/// Appends `v` in decimal, with a leading `-` when negative.
fn push_signed_decimal(out: &mut Vec<char>, v: i8)
    ensures
        final(out)@ == old(out)@ + signed_decimal(v as int),
{
    if v < 0 {
        out.push('-');
        let magnitude: u64 = (0 - (v as i32)) as u64;
        push_decimal(out, magnitude);
        assert(out@ =~= old(out)@ + signed_decimal(v as int));
    } else {
        push_decimal(out, v as u64);
    }
}

/// Appends `w` spaces.
fn push_padding(out: &mut Vec<char>, w: usize)
    ensures
        final(out)@ == old(out)@ + padding(w as nat),
{
    let mut k: usize = 0;
    while k < w
        invariant
            k <= w,
            out@ == old(out)@ + padding(k as nat),
        decreases w - k,
    {
        out.push(' ');
        k = k + 1;
        assert(out@ =~= old(out)@ + padding(k as nat));
    }
}

/// The label in front of row `i`: its number, a colon, and padding, but a
/// single space after a number of two or more digits.
pub open spec fn row_label(i: int, w: nat) -> Seq<char> {
    if i < 10 {
        decimal(i as nat) + seq![':'] + padding(w)
    } else {
        decimal(i as nat) + seq![':', ' ']
    }
}

/// The number under column `i`: padded like a cell below ten, followed by
/// a single space from ten on.
pub open spec fn column_number(i: int, w: nat) -> Seq<char> {
    if i < 10 {
        decimal(i as nat) + padding(w)
    } else {
        decimal(i as nat) + seq![' ']
    }
}

/// How a cell reads: an uncovered mine `X`, an uncovered number in
/// decimal, a flag `#`, anything else `?`; then the padding.
pub open spec fn cell_text(v: i8, shown: bool, flagged: bool, w: nat) -> Seq<char> {
    (if shown {
        if v == -1 {
            seq!['X']
        } else {
            signed_decimal(v as int)
        }
    } else if flagged {
        seq!['#']
    } else {
        seq!['?']
    }) + padding(w)
}

/// The cell in row `i`, column `j` is uncovered, each coordinate taken as a
/// `u8`.
pub open spec fn is_shown(seen: Set<(int, int)>, i: int, j: int) -> bool {
    seen.contains(((i as u8) as int, (j as u8) as int))
}

/// The first `k` cells of row `i`.
pub open spec fn row_text(
    field: Seq<Vec<i8>>,
    seen: Set<(int, int)>,
    flags: Seq<Vec<bool>>,
    i: int,
    w: nat,
    k: int,
) -> Seq<char>
    decreases k,
{
    if k <= 0 {
        Seq::empty()
    } else {
        row_text(field, seen, flags, i, w, k - 1) + cell_text(
            field[i]@[k - 1],
            is_shown(seen, i, k - 1),
            flags[i]@[k - 1],
            w,
        )
    }
}

/// The first `k` rows, each led by its label and ended by a line break.
pub open spec fn rows_text(
    field: Seq<Vec<i8>>,
    seen: Set<(int, int)>,
    flags: Seq<Vec<bool>>,
    w: nat,
    k: int,
) -> Seq<char>
    decreases k,
{
    if k <= 0 {
        Seq::empty()
    } else {
        rows_text(field, seen, flags, w, k - 1) + row_label(k - 1, w) + row_text(
            field,
            seen,
            flags,
            k - 1,
            w,
            field[k - 1]@.len() as int,
        ) + seq!['\n']
    }
}

/// A dash and padding for each of the first `k` columns.
pub open spec fn rule_text(w: nat, k: int) -> Seq<char>
    decreases k,
{
    if k <= 0 {
        Seq::empty()
    } else {
        rule_text(w, k - 1) + seq!['-'] + padding(w)
    }
}

/// The numbers of the first `k` columns.
pub open spec fn index_text(w: nat, k: int) -> Seq<char>
    decreases k,
{
    if k <= 0 {
        Seq::empty()
    } else {
        index_text(w, k - 1) + column_number(k - 1, w)
    }
}

/// The two lines under the board: a rule, then the column numbers, each
/// indented past the row labels.
pub open spec fn footer_text(cols: int, w: nat) -> Seq<char> {
    padding(w) + seq![' ', ' '] + rule_text(w, cols) + seq!['\n'] + padding(w) + seq![' ', ' '] + index_text(
        w,
        cols,
    ) + seq!['\n']
}

/// The whole board as the player sees it, padded for the width of the
/// first row.
pub open spec fn field_text(field: Seq<Vec<i8>>, seen: Set<(int, int)>, flags: Seq<Vec<bool>>) -> Seq<char> {
    let w = pad_width(field[0]@.len() as int);
    rows_text(field, seen, flags, w, field.len() as int) + footer_text(field[0]@.len() as int, w)
}

/// Every covered cell of the field has a flag entry.
pub open spec fn flags_cover(field: Seq<Vec<i8>>, seen: Set<(int, int)>, flags: Seq<Vec<bool>>) -> bool {
    forall|i: int, j: int|
        0 <= i < field.len() && 0 <= j < field[i]@.len() && !#[trigger] is_shown(seen, i, j) ==> i < flags.len()
            && j < flags[i]@.len()
}

/// The padding width for `cols` columns.
fn pad_width_of(cols: usize) -> (w: usize)
    ensures
        w as nat == pad_width(cols as int),
{
    cols / 10 + if cols % 10 != 0 {
        1
    } else {
        0
    }
}

/// Appends the two lines under the board.
fn push_footer(out: &mut Vec<char>, cols: usize, w: usize)
    ensures
        final(out)@ == old(out)@ + footer_text(cols as int, w as nat),
{
    push_padding(out, w);
    out.push(' ');
    out.push(' ');
    let mut k: usize = 0;
    let ghost start = out@;
    while k < cols
        invariant
            k <= cols,
            out@ == start + rule_text(w as nat, k as int),
        decreases cols - k,
    {
        out.push('-');
        push_padding(out, w);
        k = k + 1;
        assert(out@ =~= start + rule_text(w as nat, k as int));
    }
    out.push('\n');
    push_padding(out, w);
    out.push(' ');
    out.push(' ');
    let ghost start2 = out@;
    k = 0;
    assert(out@ =~= start2 + index_text(w as nat, 0));
    while k < cols
        invariant
            k <= cols,
            out@ == start2 + index_text(w as nat, k as int),
        decreases cols - k,
    {
        let ghost before = out@;
        push_decimal(out, k as u64);
        if k < 10 {
            push_padding(out, w);
        } else {
            out.push(' ');
        }
        k = k + 1;
        assert(out@ =~= start2 + index_text(w as nat, k as int));
    }
    out.push('\n');
    assert(out@ =~= old(out)@ + footer_text(cols as int, w as nat));
}

/// Appends the label of row `i`.
fn push_row_label(out: &mut Vec<char>, i: usize, w: usize)
    ensures
        final(out)@ == old(out)@ + row_label(i as int, w as nat),
{
    push_decimal(out, i as u64);
    if i < 10 {
        out.push(':');
        push_padding(out, w);
    } else {
        out.push(':');
        out.push(' ');
    }
    assert(out@ =~= old(out)@ + row_label(i as int, w as nat));
}

/// The board as text: for each row its number, then each cell (`X` for an
/// uncovered mine, the number of an uncovered cell, `#` for a flag, `?`
/// for a covered cell), then a rule and the column numbers.
pub fn render_field(field: &Vec<Vec<i8>>, seen: &CellSet, flags: &Vec<Vec<bool>>) -> (text: Vec<char>)
    requires
        field@.len() > 0,
        flags_cover(field@, seen@, flags@),
    ensures
        text@ == field_text(field@, seen@, flags@),
{
    let cols = field[0].len();
    let w = pad_width_of(cols);
    let mut out: Vec<char> = Vec::new();
    let mut i: usize = 0;
    while i < field.len()
        invariant
            i <= field@.len(),
            w as nat == pad_width(field@[0]@.len() as int),
            cols == field@[0]@.len(),
            flags_cover(field@, seen@, flags@),
            out@ == rows_text(field@, seen@, flags@, w as nat, i as int),
        decreases field@.len() - i,
    {
        push_row_label(&mut out, i, w);
        let ghost row_start = out@;
        let row = &field[i];
        let mut j: usize = 0;
        while j < row.len()
            invariant
                j <= row@.len(),
                row == &field@[i as int],
                i < field@.len(),
                flags_cover(field@, seen@, flags@),
                out@ == row_start + row_text(field@, seen@, flags@, i as int, w as nat, j as int),
            decreases row@.len() - j,
        {
            let v = row[j];
            assert(is_shown(seen@, i as int, j as int) == seen@.contains(((i as u8) as int, (j as u8) as int)));
            if seen.contains(i as u8, j as u8) {
                if v == -1 {
                    out.push('X');
                } else {
                    push_signed_decimal(&mut out, v);
                }
            } else if flags[i][j] {
                out.push('#');
            } else {
                out.push('?');
            }
            push_padding(&mut out, w);
            j = j + 1;
            assert(out@ =~= row_start + row_text(field@, seen@, flags@, i as int, w as nat, j as int));
        }
        out.push('\n');
        i = i + 1;
        assert(out@ =~= rows_text(field@, seen@, flags@, w as nat, i as int));
    }
    push_footer(&mut out, cols, w);
    out
}

/// The first `k` cells of a covered row: `?` and padding each.
pub open spec fn covered_row_text(w: nat, k: int) -> Seq<char>
    decreases k,
{
    if k <= 0 {
        Seq::empty()
    } else {
        covered_row_text(w, k - 1) + seq!['?'] + padding(w)
    }
}

/// The first `k` rows of the board before the first move.
pub open spec fn covered_rows_text(m: int, w: nat, k: int) -> Seq<char>
    decreases k,
{
    if k <= 0 {
        Seq::empty()
    } else {
        covered_rows_text(m, w, k - 1) + row_label(k - 1, w) + covered_row_text(w, m) + seq!['\n']
    }
}

/// The board before the first move: `n` rows of `m` covered cells, then
/// the rule and the numbers of the `m` columns.
pub open spec fn opening_text(n: int, m: int) -> Seq<char> {
    covered_rows_text(m, pad_width(m), n) + footer_text(m, pad_width(m))
}

/// The board before the first move, as text: `n` rows of `m` covered
/// cells each, then a rule and the column numbers.
pub fn render_opening(n: u8, m: u8) -> (text: Vec<char>)
    ensures
        text@ == opening_text(n as int, m as int),
{
    let w = pad_width_of(m as usize);
    let mut out: Vec<char> = Vec::new();
    let mut i: u8 = 0;
    while i < n
        invariant
            i <= n,
            w as nat == pad_width(m as int),
            out@ == covered_rows_text(m as int, w as nat, i as int),
        decreases n - i,
    {
        push_row_label(&mut out, i as usize, w);
        let ghost row_start = out@;
        let mut j: u8 = 0;
        while j < m
            invariant
                j <= m,
                out@ == row_start + covered_row_text(w as nat, j as int),
            decreases m - j,
        {
            out.push('?');
            push_padding(&mut out, w);
            j = j + 1;
            assert(out@ =~= row_start + covered_row_text(w as nat, j as int));
        }
        out.push('\n');
        i = i + 1;
        assert(out@ =~= covered_rows_text(m as int, w as nat, i as int));
    }
    push_footer(&mut out, m as usize, w);
    out
}

/// The decimal digits of `v` are digits, spell `v`, and start with `0`
/// only for `v == 0`.
pub proof fn lemma_decimal_spells(v: nat)
    ensures
        decimal(v).len() >= 1,
        all_digits(decimal(v)),
        digits_value(decimal(v)) == v,
        v >= 10 ==> decimal(v)[0] != '0',
    decreases v,
{
    if v < 10 {
        let s = decimal(v);
        assert(s.drop_last() =~= Seq::<char>::empty());
        assert((digit_char(v as int) as int) == v + 48);
        assert(('0' as int) == 48);
        assert(digits_value(Seq::<char>::empty()) == 0);
        assert(digits_value(s) == digits_value(s.drop_last()) * 10 + (s.last() as int - '0' as int));
    } else {
        lemma_decimal_spells(v / 10);
        let s = decimal(v);
        assert(s.drop_last() == decimal(v / 10));
        assert((digit_char((v % 10) as int) as int) == (v % 10) + 48);
        assert(v == (v / 10) * 10 + v % 10);
        assert(('0' as int) == 48);
        assert(s.last() == digit_char((v % 10) as int));
        assert(digits_value(s) == digits_value(s.drop_last()) * 10 + (s.last() as int - '0' as int));
        assert forall|i: int| 0 <= i < s.len() implies is_digit(#[trigger] s[i]) by {
            if i < s.len() - 1 {
                assert(s[i] == decimal(v / 10)[i]);
            }
        }
        assert(s[0] == decimal(v / 10)[0]);
        if v / 10 < 10 {
            assert(v / 10 >= 1);
            assert(decimal(v / 10)[0] == digit_char((v / 10) as int));
        }
    }
}

/// The first character of a cell's text: `X` for an uncovered mine, a digit
/// or `-` for another uncovered cell, `#` for a flagged covered cell, `?`
/// for any other covered cell.
proof fn lemma_cell_text_first(v: i8, shown: bool, flagged: bool, w: nat)
    ensures
        cell_text(v, shown, flagged, w).len() >= 1,
        cell_text(v, shown, flagged, w)[0] == 'X' <==> shown && v == -1,
        cell_text(v, shown, flagged, w)[0] == '#' <==> !shown && flagged,
        cell_text(v, shown, flagged, w)[0] == '?' <==> !shown && !flagged,
{
    if v < 0 {
        lemma_decimal_spells((-v) as nat);
    } else {
        lemma_decimal_spells(v as nat);
        assert(is_digit(decimal(v as nat)[0]));
    }
}

/// The text of the first `a` rows begins the text of the first `b` rows.
proof fn lemma_rows_text_prefix(
    field: Seq<Vec<i8>>,
    seen: Set<(int, int)>,
    flags: Seq<Vec<bool>>,
    w: nat,
    a: int,
    b: int,
)
    requires
        0 <= a <= b,
    ensures
        rows_text(field, seen, flags, w, a).len() <= rows_text(field, seen, flags, w, b).len(),
        forall|k: int|
            0 <= k < rows_text(field, seen, flags, w, a).len() ==> #[trigger] rows_text(field, seen, flags, w, b)[k]
                == rows_text(field, seen, flags, w, a)[k],
    decreases b - a,
{
    if a < b {
        lemma_rows_text_prefix(field, seen, flags, w, a, b - 1);
    }
}

/// The text of the first `a` cells of a row begins that of the first `b`.
proof fn lemma_row_text_prefix(
    field: Seq<Vec<i8>>,
    seen: Set<(int, int)>,
    flags: Seq<Vec<bool>>,
    i: int,
    w: nat,
    a: int,
    b: int,
)
    requires
        0 <= a <= b,
    ensures
        row_text(field, seen, flags, i, w, a).len() <= row_text(field, seen, flags, i, w, b).len(),
        forall|k: int|
            0 <= k < row_text(field, seen, flags, i, w, a).len() ==> #[trigger] row_text(field, seen, flags, i, w, b)[k]
                == row_text(field, seen, flags, i, w, a)[k],
    decreases b - a,
{
    if a < b {
        lemma_row_text_prefix(field, seen, flags, i, w, a, b - 1);
    }
}

/// Where the line of row `i` begins in the board's text.
pub open spec fn row_line_start(field: Seq<Vec<i8>>, seen: Set<(int, int)>, flags: Seq<Vec<bool>>, i: int) -> int {
    rows_text(field, seen, flags, pad_width(field[0]@.len() as int), i).len() as int
}

/// Each row's line is labelled with the row's own number: in the board's
/// text, the line of row `i` begins (after the line break that ends the
/// line before) with the decimal digits of `i`, then `:`.
pub proof fn lemma_row_line_label(field: Seq<Vec<i8>>, seen: Set<(int, int)>, flags: Seq<Vec<bool>>, i: int)
    requires
        field.len() > 0,
        0 <= i < field.len(),
    ensures
        ({
            let text = field_text(field, seen, flags);
            let start = row_line_start(field, seen, flags, i);
            &&& start + decimal(i as nat).len() + 1 <= text.len()
            &&& text.subrange(start, start + decimal(i as nat).len() + 1) == decimal(i as nat).push(':')
            &&& i > 0 ==> text[start - 1] == '\n'
        }),
{
    let w = pad_width(field[0]@.len() as int);
    let text = field_text(field, seen, flags);
    let all = rows_text(field, seen, flags, w, field.len() as int);
    let before = rows_text(field, seen, flags, w, i);
    let upto = rows_text(field, seen, flags, w, i + 1);
    let label = decimal(i as nat).push(':');
    lemma_rows_text_prefix(field, seen, flags, w, i + 1, field.len() as int);
    assert(upto == before + row_label(i, w) + row_text(field, seen, flags, i, w, field[i]@.len() as int) + seq!['\n']);
    assert forall|k: int| 0 <= k < label.len() implies #[trigger] text[before.len() + k] == label[k] by {
        assert(text[before.len() + k] == all[before.len() + k]);
        assert(all[before.len() + k] == upto[before.len() + k]);
        assert(row_label(i, w)[k] == label[k]);
    }
    assert(text.subrange(before.len() as int, (before.len() + label.len()) as int) =~= label);
    if i > 0 {
        lemma_rows_text_prefix(field, seen, flags, w, i, i + 1);
        assert(before == rows_text(field, seen, flags, w, i - 1) + row_label(i - 1, w) + row_text(
            field,
            seen,
            flags,
            i - 1,
            w,
            field[i - 1]@.len() as int,
        ) + seq!['\n']);
        assert(text[before.len() - 1] == all[before.len() - 1]);
        assert(all[before.len() - 1] == before[before.len() - 1]);
    }
}

/// Where the text of the cell in row `i`, column `j` begins.
pub open spec fn cell_start(field: Seq<Vec<i8>>, seen: Set<(int, int)>, flags: Seq<Vec<bool>>, i: int, j: int) -> int {
    let w = pad_width(field[0]@.len() as int);
    row_line_start(field, seen, flags, i) + row_label(i, w).len() + row_text(field, seen, flags, i, w, j).len()
}

/// Each cell shows what it holds for the player: the text of the cell in
/// row `i`, column `j` begins with `X` exactly when the cell is uncovered
/// and holds a mine, with `#` exactly when it is covered and its own flag
/// `flags[i][j]` is set, and with `?` exactly when it is covered without a
/// flag.
pub proof fn lemma_cell_shows(field: Seq<Vec<i8>>, seen: Set<(int, int)>, flags: Seq<Vec<bool>>, i: int, j: int)
    requires
        field.len() > 0,
        0 <= i < field.len(),
        0 <= j < field[i]@.len(),
    ensures
        ({
            let text = field_text(field, seen, flags);
            let k = cell_start(field, seen, flags, i, j);
            &&& 0 <= k < text.len()
            &&& text[k] == 'X' <==> is_shown(seen, i, j) && field[i]@[j] == -1
            &&& text[k] == '#' <==> !is_shown(seen, i, j) && flags[i]@[j]
            &&& text[k] == '?' <==> !is_shown(seen, i, j) && !flags[i]@[j]
        }),
{
    let w = pad_width(field[0]@.len() as int);
    let text = field_text(field, seen, flags);
    let all = rows_text(field, seen, flags, w, field.len() as int);
    let before = rows_text(field, seen, flags, w, i);
    let upto = rows_text(field, seen, flags, w, i + 1);
    let len_i = field[i]@.len() as int;
    let cells = row_text(field, seen, flags, i, w, len_i);
    let first = row_text(field, seen, flags, i, w, j);
    let ct = cell_text(field[i]@[j], is_shown(seen, i, j), flags[i]@[j], w);
    lemma_cell_text_first(field[i]@[j], is_shown(seen, i, j), flags[i]@[j], w);
    lemma_rows_text_prefix(field, seen, flags, w, i + 1, field.len() as int);
    lemma_row_text_prefix(field, seen, flags, i, w, j + 1, len_i);
    assert(row_text(field, seen, flags, i, w, j + 1) == first + ct);
    assert(upto == before + row_label(i, w) + cells + seq!['\n']);
    let k = (before.len() + row_label(i, w).len() + first.len()) as int;
    assert(cells[first.len() as int] == ct[0]);
    assert(upto[k] == cells[first.len() as int]);
    assert(text[k] == all[k]);
}

/// The opening board labels each row's line with the row's own number.
pub proof fn lemma_opening_row_label(n: int, m: int, i: int)
    requires
        0 <= i < n,
    ensures
        ({
            let text = opening_text(n, m);
            let start = covered_rows_text(m, pad_width(m), i).len() as int;
            &&& start + decimal(i as nat).len() + 1 <= text.len()
            &&& text.subrange(start, start + decimal(i as nat).len() + 1) == decimal(i as nat).push(':')
        }),
    decreases n - i,
{
    let w = pad_width(m);
    let text = opening_text(n, m);
    let before = covered_rows_text(m, w, i);
    let label = decimal(i as nat).push(':');
    lemma_covered_rows_prefix(m, w, i + 1, n);
    let upto = covered_rows_text(m, w, i + 1);
    assert(upto == before + row_label(i, w) + covered_row_text(w, m) + seq!['\n']);
    assert forall|k: int| 0 <= k < label.len() implies #[trigger] text[before.len() + k] == label[k] by {
        assert(text[before.len() + k] == covered_rows_text(m, w, n)[before.len() + k]);
        assert(upto[before.len() + k] == row_label(i, w)[k]);
    }
    assert(text.subrange(before.len() as int, (before.len() + label.len()) as int) =~= label);
}

/// The first `a` covered rows begin the first `b`.
proof fn lemma_covered_rows_prefix(m: int, w: nat, a: int, b: int)
    requires
        0 <= a <= b,
    ensures
        covered_rows_text(m, w, a).len() <= covered_rows_text(m, w, b).len(),
        forall|k: int|
            0 <= k < covered_rows_text(m, w, a).len() ==> #[trigger] covered_rows_text(m, w, b)[k]
                == covered_rows_text(m, w, a)[k],
    decreases b - a,
{
    if a < b {
        lemma_covered_rows_prefix(m, w, a, b - 1);
    }
}

/// The padding after each cell is one space per started ten columns:
/// `pad_width(cols)` is the least number of tens that covers `cols`.
pub proof fn lemma_pad_width(cols: int)
    requires
        cols >= 0,
    ensures
        pad_width(cols) * 10 >= cols,
        pad_width(cols) == 0 || (pad_width(cols) - 1) * 10 < cols,
{
}

/// The text of the first `a` column numbers begins that of the first `b`.
proof fn lemma_index_text_prefix(w: nat, a: int, b: int)
    requires
        0 <= a <= b,
    ensures
        index_text(w, a).len() <= index_text(w, b).len(),
        forall|k: int| 0 <= k < index_text(w, a).len() ==> #[trigger] index_text(w, b)[k] == index_text(w, a)[k],
    decreases b - a,
{
    if a < b {
        lemma_index_text_prefix(w, a, b - 1);
    }
}

/// Each column is numbered with its own index: in the line of column
/// numbers, the number of column `j` spells `j` in decimal and is followed
/// by a space.
pub proof fn lemma_column_number(w: nat, cols: int, j: int)
    requires
        0 <= j < cols,
    ensures
        ({
            let line = index_text(w, cols);
            let start = index_text(w, j).len() as int;
            let digits = decimal(j as nat);
            &&& start + digits.len() < line.len() || (w == 0 && j < 10 && start + digits.len() == line.len())
            &&& line.subrange(start, start + digits.len()) == digits
            &&& (j >= 10 || w > 0) ==> line[start + digits.len()] == ' '
        }),
{
    lemma_index_text_prefix(w, j + 1, cols);
    let before = index_text(w, j);
    let number = column_number(j, w);
    let digits = decimal(j as nat);
    let line = index_text(w, cols);
    assert(index_text(w, j + 1) == before + number);
    assert forall|k: int| 0 <= k < digits.len() implies #[trigger] line[before.len() + k] == digits[k] by {
        assert(index_text(w, j + 1)[before.len() + k] == number[k]);
    }
    assert(line.subrange(before.len() as int, (before.len() + digits.len()) as int) =~= digits);
    if j >= 10 || w > 0 {
        assert(index_text(w, j + 1)[(before.len() + digits.len()) as int] == number[digits.len() as int]);
    }
}

/// An uncovered cell that holds no mine shows its number: the cell's text
/// begins with the number in decimal, with a `-` in front when negative.
pub proof fn lemma_cell_shows_number(field: Seq<Vec<i8>>, seen: Set<(int, int)>, flags: Seq<Vec<bool>>, i: int, j: int)
    requires
        field.len() > 0,
        0 <= i < field.len(),
        0 <= j < field[i]@.len(),
        is_shown(seen, i, j),
        field[i]@[j] != -1,
    ensures
        ({
            let text = field_text(field, seen, flags);
            let k = cell_start(field, seen, flags, i, j);
            let v = field[i]@[j] as int;
            let magnitude = decimal((if v < 0 { -v } else { v }) as nat);
            let sign = if v < 0 { 1int } else { 0int };
            &&& k + sign + magnitude.len() <= text.len()
            &&& v < 0 ==> text[k] == '-'
            &&& text.subrange(k + sign, k + sign + magnitude.len()) == magnitude
        }),
{
    let w = pad_width(field[0]@.len() as int);
    let text = field_text(field, seen, flags);
    let all = rows_text(field, seen, flags, w, field.len() as int);
    let before = rows_text(field, seen, flags, w, i);
    let upto = rows_text(field, seen, flags, w, i + 1);
    let len_i = field[i]@.len() as int;
    let cells = row_text(field, seen, flags, i, w, len_i);
    let first = row_text(field, seen, flags, i, w, j);
    let v = field[i]@[j];
    let ct = cell_text(v, true, flags[i]@[j], w);
    lemma_rows_text_prefix(field, seen, flags, w, i + 1, field.len() as int);
    lemma_row_text_prefix(field, seen, flags, i, w, j + 1, len_i);
    assert(row_text(field, seen, flags, i, w, j + 1) == first + ct);
    assert(upto == before + row_label(i, w) + cells + seq!['\n']);
    let k = (before.len() + row_label(i, w).len() + first.len()) as int;
    assert(ct == signed_decimal(v as int) + padding(w));
    assert forall|t: int| 0 <= t < ct.len() implies #[trigger] text[k + t] == ct[t] by {
        assert(cells[first.len() + t] == ct[t]);
        assert(upto[k + t] == cells[first.len() + t]);
        assert(text[k + t] == all[k + t]);
    }
    let vi = v as int;
    let magnitude = decimal((if vi < 0 { -vi } else { vi }) as nat);
    let sign = if vi < 0 { 1int } else { 0int };
    assert(text.subrange(k + sign, k + sign + magnitude.len()) =~= magnitude) by {
        assert forall|t: int| 0 <= t < magnitude.len() implies #[trigger] text[k + sign + t] == magnitude[t] by {
            assert(text[k + sign + t] == ct[sign + t]);
        }
    }
    if v < 0 {
        assert(text[k] == ct[0]);
    }
}

} // verus!
