//! What the player types: numbers, and the choice between uncovering a cell
//! and flagging it.
use vstd::prelude::*;

verus! {

/// The characters that Rust's `char::is_whitespace` accepts (Unicode
/// `White_Space`).
pub open spec fn is_white_space(c: char) -> bool {
    let v = c as u32;
    ||| 0x09 <= v <= 0x0d
    ||| v == 0x20
    ||| v == 0x85
    ||| v == 0xa0
    ||| v == 0x1680
    ||| 0x2000 <= v <= 0x200a
    ||| v == 0x2028
    ||| v == 0x2029
    ||| v == 0x202f
    ||| v == 0x205f
    ||| v == 0x3000
}

/// `s` without its trailing white space.
pub open spec fn trim_end(s: Seq<char>) -> Seq<char>
    decreases s.len(),
{
    if s.len() > 0 && is_white_space(s.last()) {
        trim_end(s.drop_last())
    } else {
        s
    }
}

/// An ASCII decimal digit.
pub open spec fn is_digit(c: char) -> bool {
    '0' <= c <= '9'
}

/// The value of a string of decimal digits.
pub open spec fn digits_value(s: Seq<char>) -> int
    decreases s.len(),
{
    if s.len() == 0 {
        0
    } else {
        digits_value(s.drop_last()) * 10 + (s.last() as int - '0' as int)
    }
}

/// Every character of `s` is a decimal digit.
pub open spec fn all_digits(s: Seq<char>) -> bool {
    forall|i: int| 0 <= i < s.len() ==> is_digit(#[trigger] s[i])
}

/// `s` without a leading `+`.
pub open spec fn unsigned_part(s: Seq<char>) -> Seq<char> {
    if s.len() > 0 && s[0] == '+' {
        s.drop_first()
    } else {
        s
    }
}

/// The number that `s` spells as Rust's `u8::from_str` reads it: an
/// optional `+`, then one or more decimal digits, worth at most 255.
pub open spec fn u8_from_str(s: Seq<char>) -> Option<u8> {
    let digits = unsigned_part(s);
    if digits.len() > 0 && all_digits(digits) && digits_value(digits) <= 255 {
        Some(digits_value(digits) as u8)
    } else {
        None
    }
}

/// Whether `c` is a white space character, as `char::is_whitespace` has it.
fn white_space(c: char) -> (b: bool)
    ensures
        b == is_white_space(c),
{
    let v = c as u32;
    (0x09 <= v && v <= 0x0d) || v == 0x20 || v == 0x85 || v == 0xa0 || v == 0x1680 || (0x2000 <= v && v
        <= 0x200a) || v == 0x2028 || v == 0x2029 || v == 0x202f || v == 0x205f || v == 0x3000
}

/// The number of characters of `s` left once trailing white space is cut.
fn trimmed_len(s: &str) -> (len: usize)
    ensures
        len <= s@.len(),
        trim_end(s@) == s@.subrange(0, len as int),
{
    let mut len = s.unicode_len();
    assert(s@.subrange(0, len as int) =~= s@);
    while len > 0 && white_space(s.get_char(len - 1))
        invariant
            len <= s@.len(),
            trim_end(s@) == trim_end(s@.subrange(0, len as int)),
        decreases len,
    {
        assert(s@.subrange(0, len as int).drop_last() =~= s@.subrange(0, len - 1));
        len = len - 1;
    }
    len
}

/// Longer strings of digits are worth at least as much as their prefixes.
proof fn lemma_digits_value_grows(s: Seq<char>, k: int)
    requires
        0 <= k <= s.len(),
        forall|i: int| 0 <= i < s.len() ==> is_digit(#[trigger] s[i]),
    ensures
        digits_value(s.subrange(0, k)) <= digits_value(s),
        0 <= digits_value(s.subrange(0, k)),
    decreases s.len(),
{
    if k < s.len() {
        let shorter = s.drop_last();
        assert(shorter.subrange(0, k) =~= s.subrange(0, k));
        lemma_digits_value_grows(shorter, k);
        assert(is_digit(s.last()));
    } else {
        assert(s.subrange(0, k) =~= s);
        if s.len() > 0 {
            lemma_digits_value_grows(s.drop_last(), s.len() - 1);
            assert(s.drop_last().subrange(0, s.len() - 1) =~= s.drop_last());
            assert(is_digit(s.last()));
        }
    }
}

/// Reads a number from a line typed by the player, as `read_u8` does:
/// trailing white space is cut, then the rest must be an optional `+` and
/// decimal digits worth at most 255.
pub fn parse_u8(line: &str) -> (result: Option<u8>)
    ensures
        result == u8_from_str(trim_end(line@)),
{
    let len = trimmed_len(line);
    let ghost s = line@.subrange(0, len as int);
    let mut start: usize = 0;
    if len > 0 && line.get_char(0) == '+' {
        start = 1;
    }
    let ghost digits = s.subrange(start as int, len as int);
    proof {
        if len > 0 && s[0] == '+' {
            assert(digits =~= s.drop_first());
        } else {
            assert(digits =~= s);
        }
        assert(unsigned_part(trim_end(line@)) == digits);
    }
    if start == len {
        proof {
            assert(unsigned_part(trim_end(line@)) == digits);
        }
        return None;
    }
    let mut value: u16 = 0;
    let mut i: usize = start;
    while i < len
        invariant
            start <= i <= len,
            len <= line@.len(),
            s == line@.subrange(0, len as int),
            digits == s.subrange(start as int, len as int),
            unsigned_part(trim_end(line@)) == digits,
            forall|j: int| start <= j < i ==> is_digit(#[trigger] s[j]),
            value as int == digits_value(digits.subrange(0, i - start)),
            value <= 255,
        decreases len - i,
    {
        let c = line.get_char(i);
        assert(c == s[i as int]);
        assert(digits[i - start] == c);
        if !('0' <= c && c <= '9') {
            proof {
                assert(!is_digit(digits[i - start]));
                assert(!all_digits(digits));
                assert(unsigned_part(trim_end(line@)) == digits);
            }
            return None;
        }
        let next: u16 = value * 10 + ((c as u32) - ('0' as u32)) as u16;
        proof {
            let prefix = digits.subrange(0, i + 1 - start);
            assert(prefix.drop_last() =~= digits.subrange(0, i - start));
            assert(prefix.last() == c);
            assert(next as int == digits_value(prefix));
        }
        if next > 255 {
            proof {
                assert(unsigned_part(trim_end(line@)) == digits);
                if all_digits(digits) {
                    lemma_digits_value_grows(digits, i + 1 - start);
                }
            }
            return None;
        }
        value = next;
        i = i + 1;
    }
    proof {
        assert(digits.subrange(0, len - start) =~= digits);
        assert forall|j: int| 0 <= j < digits.len() implies is_digit(#[trigger] digits[j]) by {
            assert(digits[j] == s[j + start]);
        }
        assert(unsigned_part(trim_end(line@)) == digits);
    }
    Some(value as u8)
}

/// The two moves a player can choose.
#[derive(Debug, Clone, Copy, PartialEq, Eq, Structural)]
pub enum Action {
    /// Uncover the cell.
    Reveal,
    /// Place or lift a flag.
    Flag,
}

/// `c` is the lower-case letter `w` or its upper-case form.
pub open spec fn same_letter(c: char, w: char) -> bool {
    c == w || (c as u32) + 32 == (w as u32)
}

/// `s` spells the lower-case word `word`, letters in either case.
pub open spec fn spells(s: Seq<char>, word: Seq<char>) -> bool {
    s.len() == word.len() && forall|i: int| 0 <= i < s.len() ==> same_letter(#[trigger] s[i], word[i])
}

/// The move that an answer names: `reveal` or `r` to uncover, `flag` or `f`
/// to flag, in any mix of cases.
pub open spec fn action_from_str(s: Seq<char>) -> Option<Action> {
    if spells(s, seq!['r', 'e', 'v', 'e', 'a', 'l']) || spells(s, seq!['r']) {
        Some(Action::Reveal)
    } else if spells(s, seq!['f', 'l', 'a', 'g']) || spells(s, seq!['f']) {
        Some(Action::Flag)
    } else {
        None
    }
}

/// `c` with an ASCII upper-case letter turned to lower case.
pub open spec fn to_ascii_lower(c: char) -> char {
    if 'A' <= c <= 'Z' {
        ((c as u32) + 32) as char
    } else {
        c
    }
}

/// `s` with every ASCII upper-case letter turned to lower case.
pub open spec fn ascii_lowercase(s: Seq<char>) -> Seq<char> {
    Seq::new(s.len(), |i: int| to_ascii_lower(s[i]))
}

/// Lower-casing a character twice is lower-casing it once, and keeps
/// white space as it is.
proof fn lemma_to_ascii_lower(c: char)
    ensures
        to_ascii_lower(to_ascii_lower(c)) == to_ascii_lower(c),
        is_white_space(to_ascii_lower(c)) == is_white_space(c),
        'A' <= c <= 'Z' ==> to_ascii_lower(c) as u32 == c as u32 + 32,
{
}

/// `s` spells a lower-case word exactly when `s` lower-cased is that word.
proof fn lemma_spells_lowercase(s: Seq<char>, word: Seq<char>)
    requires
        forall|i: int| 0 <= i < word.len() ==> 'a' <= #[trigger] word[i] <= 'z',
    ensures
        spells(s, word) <==> ascii_lowercase(s) == word,
{
    if s.len() == word.len() {
        assert forall|i: int| 0 <= i < s.len() implies (same_letter(#[trigger] s[i], word[i]) <==> to_ascii_lower(
            s[i],
        ) == word[i]) by {
            lemma_to_ascii_lower(s[i]);
            assert('a' <= word[i] <= 'z');
        }
        if spells(s, word) {
            assert(ascii_lowercase(s) =~= word);
        }
        if ascii_lowercase(s) == word {
            assert forall|i: int| 0 <= i < s.len() implies same_letter(#[trigger] s[i], word[i]) by {
                assert(ascii_lowercase(s)[i] == word[i]);
            }
        }
    } else {
        assert(ascii_lowercase(s).len() != word.len());
    }
}

/// An answer names a move by its lower-cased text: `reveal` or `r` is
/// uncovering, `flag` or `f` is flagging, anything else is no answer.
pub proof fn lemma_action_by_lowercase(s: Seq<char>)
    ensures
        action_from_str(s) == if ascii_lowercase(s) == seq!['r', 'e', 'v', 'e', 'a', 'l'] || ascii_lowercase(s)
            == seq!['r'] {
            Some(Action::Reveal)
        } else if ascii_lowercase(s) == seq!['f', 'l', 'a', 'g'] || ascii_lowercase(s) == seq!['f'] {
            Some(Action::Flag)
        } else {
            None
        },
{
    lemma_spells_lowercase(s, seq!['r', 'e', 'v', 'e', 'a', 'l']);
    lemma_spells_lowercase(s, seq!['r']);
    lemma_spells_lowercase(s, seq!['f', 'l', 'a', 'g']);
    lemma_spells_lowercase(s, seq!['f']);
}

/// Cutting trailing white space and lower-casing can be done in either
/// order.
proof fn lemma_trim_end_lowercase(s: Seq<char>)
    ensures
        trim_end(ascii_lowercase(s)) == ascii_lowercase(trim_end(s)),
    decreases s.len(),
{
    if s.len() > 0 {
        lemma_to_ascii_lower(s.last());
        assert(ascii_lowercase(s).drop_last() =~= ascii_lowercase(s.drop_last()));
        assert(ascii_lowercase(s).last() == to_ascii_lower(s.last()));
        lemma_trim_end_lowercase(s.drop_last());
    } else {
        assert(ascii_lowercase(s) =~= s);
    }
}

/// The player's answer is read without regard to case: a line and the
/// same line with its ASCII upper-case letters lower-cased name the same
/// move (so `R` is uncovering and `F` flagging).
pub proof fn lemma_parse_action_ignores_case(line: Seq<char>)
    ensures
        action_from_str(trim_end(line)) == action_from_str(trim_end(ascii_lowercase(line))),
{
    let t = trim_end(line);
    lemma_trim_end_lowercase(line);
    lemma_action_by_lowercase(t);
    lemma_action_by_lowercase(ascii_lowercase(t));
    assert forall|i: int| 0 <= i < t.len() implies #[trigger] ascii_lowercase(ascii_lowercase(t))[i] == ascii_lowercase(
        t,
    )[i] by {
        lemma_to_ascii_lower(t[i]);
    }
    assert(ascii_lowercase(ascii_lowercase(t)) =~= ascii_lowercase(t));
}

/// Reading back a number that the board prints gives the number: the
/// decimal digits of any `v` up to 255, with trailing white space, read as
/// `v`.
pub proof fn lemma_parse_printed_number(v: u8, tail: Seq<char>)
    requires
        forall|i: int| 0 <= i < tail.len() ==> is_white_space(#[trigger] tail[i]),
    ensures
        u8_from_str(trim_end(crate::render::decimal(v as nat) + tail)) == Some(v),
    decreases tail.len(),
{
    let digits = crate::render::decimal(v as nat);
    crate::render::lemma_decimal_spells(v as nat);
    if tail.len() > 0 {
        assert((digits + tail).drop_last() =~= digits + tail.drop_last());
        assert(is_white_space(tail.last()));
        lemma_parse_printed_number(v, tail.drop_last());
    } else {
        assert(digits + tail =~= digits);
        assert(is_digit(digits.last()));
        assert(!is_white_space(digits.last()));
        assert(is_digit(digits[0]));
        assert(unsigned_part(digits) == digits);
    }
}

/// Whether the first `len` characters of `line` spell `word`.
fn spells_word(line: &str, len: usize, word: &[char]) -> (b: bool)
    requires
        len <= line@.len(),
        forall|i: int| 0 <= i < word@.len() ==> 'a' <= #[trigger] word@[i] <= 'z',
    ensures
        b == spells(line@.subrange(0, len as int), word@),
{
    let ghost s = line@.subrange(0, len as int);
    if len != word.len() {
        return false;
    }
    let mut i: usize = 0;
    while i < len
        invariant
            i <= len,
            len == word@.len(),
            len <= line@.len(),
            s == line@.subrange(0, len as int),
            forall|j: int| 0 <= j < word@.len() ==> 'a' <= #[trigger] word@[j] <= 'z',
            forall|j: int| 0 <= j < i ==> same_letter(#[trigger] s[j], word@[j]),
        decreases len - i,
    {
        let c = line.get_char(i);
        let w = word[i];
        assert(c == s[i as int]);
        if !(c == w || (c as u32) + 32 == (w as u32)) {
            return false;
        }
        i = i + 1;
    }
    true
}

/// Reads the player's choice of move, as the game asks for it: trailing
/// white space is cut, then `reveal` or `r` means uncover, `flag` or `f`
/// means flag, in any case; anything else is no answer.
pub fn parse_action(line: &str) -> (result: Option<Action>)
    ensures
        result == action_from_str(trim_end(line@)),
{
    let len = trimmed_len(line);
    let reveal: [char; 6] = ['r', 'e', 'v', 'e', 'a', 'l'];
    let r: [char; 1] = ['r'];
    let flag: [char; 4] = ['f', 'l', 'a', 'g'];
    let f: [char; 1] = ['f'];
    assert(reveal@ =~= seq!['r', 'e', 'v', 'e', 'a', 'l']);
    assert(r@ =~= seq!['r']);
    assert(flag@ =~= seq!['f', 'l', 'a', 'g']);
    assert(f@ =~= seq!['f']);
    if spells_word(line, len, reveal.as_slice()) || spells_word(line, len, r.as_slice()) {
        Some(Action::Reveal)
    } else if spells_word(line, len, flag.as_slice()) || spells_word(line, len, f.as_slice()) {
        Some(Action::Flag)
    } else {
        None
    }
}

/// A height or width of the field that the game accepts: 3 to 99.
pub fn valid_field_size(v: u8) -> (ok: bool)
    ensures
        ok == (3 <= v <= 99),
{
    3 <= v && v <= 99
}

/// A coordinate that the game accepts for a side of `bound` cells: below
/// `bound`.
pub fn valid_coordinate(v: u8, bound: u8) -> (ok: bool)
    ensures
        ok == (v < bound),
{
    v < bound
}

/// A number of mines that the game accepts for an `n` by `m` field: at
/// least one, and fewer than the cells, so that the first cell opened can
/// stay free.
pub fn valid_mine_count(mines: u8, n: u8, m: u8) -> (ok: bool)
    ensures
        ok == (mines >= 1 && mines as int <= n as int * m as int - 1),
{
    let nn: u32 = n as u32;
    let mm: u32 = m as u32;
    assert(nn * mm <= 65025) by (nonlinear_arith)
        requires
            nn <= 255,
            mm <= 255,
    ;
    let cells: u32 = nn * mm;
    mines != 0 && (mines as u32) + 1 <= cells
}

} // verus!
