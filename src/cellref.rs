//! A1-style cell and range references: column letters (bijective base 26)
//! followed by a one-based row number.

use vstd::prelude::*;
use crate::text::{trim_text, trimmed};

verus! {

pub open spec fn is_alpha(c: char) -> bool {
    ('A' <= c && c <= 'Z') || ('a' <= c && c <= 'z')
}

pub open spec fn is_digit(c: char) -> bool {
    '0' <= c && c <= '9'
}

/// `A` (or `a`) is 1, ..., `Z` (or `z`) is 26.
pub open spec fn letter_value(c: char) -> nat {
    if 'a' <= c && c <= 'z' {
        (c as nat - 'a' as nat + 1) as nat
    } else {
        (c as nat - 'A' as nat + 1) as nat
    }
}

/// The bijective base-26 value of a run of letters (`A` = 1, `Z` = 26,
/// `AA` = 27).
pub open spec fn label_value(s: Seq<char>) -> nat
    decreases s.len(),
{
    if s.len() == 0 {
        0
    } else {
        label_value(s.drop_last()) * 26 + letter_value(s.last())
    }
}

pub open spec fn all_alpha(s: Seq<char>) -> bool {
    forall|i: int| 0 <= i < s.len() ==> is_alpha(#[trigger] s[i])
}

/// The zero-based column index that a column label names, if the label is
/// a non-empty run of letters whose index fits in `usize`.
pub open spec fn label_index(s: Seq<char>) -> Option<usize> {
    if s.len() > 0 && all_alpha(s) && label_value(s) <= usize::MAX {
        Some((label_value(s) - 1) as usize)
    } else {
        None
    }
}

/// The upper-case letter for a value in `1..=26`.
pub open spec fn letter_of(v: nat) -> char {
    ((v + 64) as u8) as char
}

/// The column label of a one-based column number.
pub open spec fn label_of(n: nat) -> Seq<char>
    decreases n,
{
    if n <= 26 {
        seq![letter_of(n)]
    } else {
        label_of(((n - 1) as nat / 26) as nat).push(letter_of(((n - 1) as nat % 26 + 1) as nat))
    }
}

proof fn lemma_label_value_grows(s: Seq<char>, i: int)
    requires
        0 <= i <= s.len(),
    ensures
        label_value(s.subrange(0, i)) <= label_value(s),
    decreases s.len() - i,
{
    if i < s.len() {
        lemma_label_value_grows(s, i + 1);
        assert(s.subrange(0, i + 1).drop_last() =~= s.subrange(0, i));
    } else {
        assert(s.subrange(0, i) =~= s);
    }
}

/// Decodes a column label (`A` is 0, `Z` is 25, `AA` is 26); letters of
/// either case are accepted.
pub fn column_label_to_index(label: &str) -> (r: Option<usize>)
    ensures
        r == label_index(label@),
{
    let n = label.unicode_len();
    let mut value: usize = 0;
    let mut i: usize = 0;
    while i < n
        invariant
            n == label@.len(),
            i <= n,
            value as nat == label_value(label@.subrange(0, i as int)),
            all_alpha(label@.subrange(0, i as int)),
        decreases n - i,
    {
        let ch = label.get_char(i);
        let ghost pre = label@.subrange(0, i as int);
        assert(label@.subrange(0, i + 1).drop_last() =~= pre);
        if !(('A' <= ch && ch <= 'Z') || ('a' <= ch && ch <= 'z')) {
            assert(!all_alpha(label@));
            return None;
        }
        let offset: usize = if 'a' <= ch && ch <= 'z' {
            (ch as u32 - 'a' as u32 + 1) as usize
        } else {
            (ch as u32 - 'A' as u32 + 1) as usize
        };
        if value > (usize::MAX - offset) / 26 {
            proof {
                lemma_label_value_grows(label@, i + 1);
            }
            return None;
        }
        value = value * 26 + offset;
        i = i + 1;
        assert(all_alpha(label@.subrange(0, i as int)));
    }
    assert(label@.subrange(0, n as int) =~= label@);
    if value == 0 {
        return None;
    }
    Some(value - 1)
}

proof fn lemma_label_of(n: nat)
    requires
        n >= 1,
    ensures
        label_of(n).len() > 0,
        all_alpha(label_of(n)),
        label_value(label_of(n)) == n,
    decreases n,
{
    if n > 26 {
        let q = ((n - 1) as nat / 26) as nat;
        let d = ((n - 1) as nat % 26 + 1) as nat;
        lemma_label_of(q);
        let s = label_of(n);
        assert(s.drop_last() =~= label_of(q));
        assert(letter_value(letter_of(d)) == d);
        vstd::arithmetic::div_mod::lemma_fundamental_div_mod((n - 1) as int, 26);
        assert(label_value(s) == label_value(label_of(q)) * 26 + letter_value(letter_of(d)));
        assert(label_value(s) == n);
        assert forall|i: int| 0 <= i < s.len() implies is_alpha(#[trigger] s[i]) by {
            if i < s.len() - 1 {
                assert(s[i] == label_of(q)[i]);
            }
        }
    } else {
        assert(letter_value(letter_of(n)) == n);
        assert(label_of(n).drop_last() =~= Seq::<char>::empty());
        assert(label_value(Seq::<char>::empty()) == 0);
        assert(label_of(n).last() == letter_of(n));
        assert(label_value(label_of(n)) == n);
    }
}

fn push_label(s: &mut String, n: u128)
    requires
        n >= 1,
    ensures
        final(s)@ == old(s)@ + label_of(n as nat),
    decreases n,
{
    if n > 26 {
        push_label(s, (n - 1) / 26);
    }
    let d = ((n - 1) % 26) as u8;
    s.push((d + 65) as char);
    assert(final(s)@ =~= old(s)@ + label_of(n as nat));
}

/// Encodes a zero-based column index as its label (0 is `A`, 25 is `Z`,
/// 26 is `AA`): the mirror of `column_label_to_index`.
pub fn column_index_to_label(index: usize) -> (r: String)
    ensures
        r@ == label_of(index as nat + 1),
        index < usize::MAX ==> label_index(r@) == Some(index),
{
    let mut s = String::new();
    push_label(&mut s, index as u128 + 1);
    proof {
        lemma_label_of(index as nat + 1);
        assert(s@ =~= label_of(index as nat + 1));
    }
    s
}

/// Decoding a column's label gives back the column's index (the largest
/// `usize` has no label that decodes into `usize`).
pub proof fn lemma_column_label_round_trip(index: usize)
    requires
        index < usize::MAX,
    ensures
        label_index(label_of(index as nat + 1)) == Some(index),
{
    lemma_label_of(index as nat + 1);
}

/// The letters of `s`, in order.
pub open spec fn letters_of(s: Seq<char>) -> Seq<char>
    decreases s.len(),
{
    if s.len() == 0 {
        s
    } else if is_alpha(s.last()) {
        letters_of(s.drop_last()).push(s.last())
    } else {
        letters_of(s.drop_last())
    }
}

/// The digits of `s`, in order.
pub open spec fn digits_of(s: Seq<char>) -> Seq<char>
    decreases s.len(),
{
    if s.len() == 0 {
        s
    } else if is_digit(s.last()) {
        digits_of(s.drop_last()).push(s.last())
    } else {
        digits_of(s.drop_last())
    }
}

/// Some letter of `s` comes after some digit of it.
pub open spec fn letter_after_digit(s: Seq<char>) -> bool
    decreases s.len(),
{
    s.len() > 0 && (letter_after_digit(s.drop_last()) || (is_alpha(s.last()) && digits_of(
        s.drop_last(),
    ).len() > 0))
}

/// The value of a run of decimal digits.
pub open spec fn digits_value(d: Seq<char>) -> nat
    decreases d.len(),
{
    if d.len() == 0 {
        0
    } else {
        digits_value(d.drop_last()) * 10 + (d.last() as nat - '0' as nat) as nat
    }
}

pub open spec fn all_alnum(s: Seq<char>) -> bool {
    forall|i: int| 0 <= i < s.len() ==> is_alpha(#[trigger] s[i]) || is_digit(s[i])
}

/// The zero-based `(row, column)` that a cell reference such as `B12`
/// names: a run of ASCII letters then a run of ASCII digits. Any other
/// character, a letter after a digit, a missing run, row 0, or an index
/// that does not fit in `usize` gives `None`.
pub open spec fn cell_ref_spec(s: Seq<char>) -> Option<(usize, usize)> {
    let letters = letters_of(s);
    let digits = digits_of(s);
    if !all_alnum(s) || letter_after_digit(s) || letters.len() == 0 || digits.len() == 0 {
        None
    } else {
        match label_index(letters) {
            None => None,
            Some(col) => if 1 <= digits_value(digits) <= usize::MAX {
                Some(((digits_value(digits) - 1) as usize, col))
            } else {
                None
            },
        }
    }
}

proof fn lemma_letters_all_alpha(s: Seq<char>)
    ensures
        all_alpha(letters_of(s)),
    decreases s.len(),
{
    if s.len() > 0 {
        lemma_letters_all_alpha(s.drop_last());
        let l = letters_of(s);
        let p = letters_of(s.drop_last());
        assert forall|i: int| 0 <= i < l.len() implies is_alpha(#[trigger] l[i]) by {
            if i < p.len() {
                assert(l[i] == p[i]);
            }
        }
    }
}

proof fn lemma_digits_value_grows(d: Seq<char>, c: char)
    requires
        is_digit(c),
    ensures
        digits_value(d) <= digits_value(d.push(c)),
{
    assert(d.push(c).drop_last() =~= d);
}

proof fn lemma_letter_after_digit_prefix(s: Seq<char>, i: int)
    requires
        0 <= i <= s.len(),
        letter_after_digit(s.subrange(0, i)),
    ensures
        letter_after_digit(s),
    decreases s.len() - i,
{
    if i < s.len() {
        assert(s.subrange(0, i + 1).drop_last() =~= s.subrange(0, i));
        lemma_letter_after_digit_prefix(s, i + 1);
    } else {
        assert(s.subrange(0, i) =~= s);
    }
}

/// Decodes a cell reference such as `B12` into its zero-based
/// `(row, column)`.
pub fn parse_cell_ref(cell: &str) -> (r: Option<(usize, usize)>)
    ensures
        r == cell_ref_spec(cell@),
{
    let n = cell.unicode_len();
    let mut col_part = String::new();
    let mut row: usize = 0;
    let mut has_digit = false;
    let mut row_too_big = false;
    let mut i: usize = 0;
    while i < n
        invariant
            n == cell@.len(),
            i <= n,
            col_part@ == letters_of(cell@.subrange(0, i as int)),
            has_digit == (digits_of(cell@.subrange(0, i as int)).len() > 0),
            !letter_after_digit(cell@.subrange(0, i as int)),
            forall|k: int| 0 <= k < i ==> is_alpha(#[trigger] cell@[k]) || is_digit(cell@[k]),
            !row_too_big ==> row as nat == digits_value(digits_of(cell@.subrange(0, i as int))),
            row_too_big ==> digits_value(digits_of(cell@.subrange(0, i as int))) > usize::MAX,
        decreases n - i,
    {
        let ch = cell.get_char(i);
        let ghost pre = cell@.subrange(0, i as int);
        assert(cell@.subrange(0, i + 1).drop_last() =~= pre);
        assert(cell@.subrange(0, i + 1).last() == ch);
        if ('A' <= ch && ch <= 'Z') || ('a' <= ch && ch <= 'z') {
            if has_digit {
                proof {
                    lemma_letter_after_digit_prefix(cell@, i + 1);
                }
                return None;
            }
            col_part.push(ch);
        } else if '0' <= ch && ch <= '9' {
            let d = (ch as u32 - '0' as u32) as usize;
            has_digit = true;
            proof {
                assert(digits_of(cell@.subrange(0, i + 1)) == digits_of(pre).push(ch));
                lemma_digits_value_grows(digits_of(pre), ch);
                assert(digits_of(pre).push(ch).drop_last() =~= digits_of(pre));
            }
            if !row_too_big {
                if row > (usize::MAX - d) / 10 {
                    row_too_big = true;
                } else {
                    row = row * 10 + d;
                }
            }
        } else {
            assert(!(is_alpha(cell@[i as int]) || is_digit(cell@[i as int])));
            return None;
        }
        i = i + 1;
    }
    assert(cell@.subrange(0, n as int) =~= cell@);
    if col_part.unicode_len() == 0 || !has_digit {
        return None;
    }
    proof {
        lemma_letters_all_alpha(cell@);
    }
    let col = match column_label_to_index(col_part.as_str()) {
        Some(c) => c,
        None => {
            return None;
        },
    };
    if row_too_big || row == 0 {
        return None;
    }
    Some((row - 1, col))
}

/// A merged-cell region in sheet coordinates: zero-based, inclusive.
#[derive(Clone, Copy, Debug, PartialEq, Eq)]
pub struct MergeRange {
    pub start_row: usize,
    pub end_row: usize,
    pub start_col: usize,
    pub end_col: usize,
}

impl MergeRange {
    pub open spec fn wf(self) -> bool {
        self.start_row <= self.end_row && self.start_col <= self.end_col
    }
}

/// The part of `s` before the first `c` (all of `s` if it has none).
pub open spec fn prefix_before(s: Seq<char>, c: char) -> Seq<char>
    decreases s.len(),
{
    if s.len() == 0 || s[0] == c {
        Seq::empty()
    } else {
        seq![s[0]] + prefix_before(s.drop_first(), c)
    }
}

/// The two endpoint references of a range reference such as `B2:C4`: the
/// parts before and after the first `:`, cut at a second `:`; a reference
/// without `:` is both endpoints.
pub open spec fn range_endpoints(s: Seq<char>) -> (Seq<char>, Seq<char>) {
    let start = prefix_before(s, ':');
    if start.len() == s.len() {
        (start, start)
    } else {
        (start, prefix_before(s.subrange(start.len() as int + 1, s.len() as int), ':'))
    }
}

pub open spec fn min_usize(a: usize, b: usize) -> usize {
    if a <= b {
        a
    } else {
        b
    }
}

pub open spec fn max_usize(a: usize, b: usize) -> usize {
    if a <= b {
        b
    } else {
        a
    }
}

/// The region that a range reference names, each endpoint trimmed of
/// whitespace, with each axis ordered; `None` if either endpoint does not
/// decode.
pub open spec fn range_ref_spec(s: Seq<char>) -> Option<MergeRange> {
    let (a, b) = range_endpoints(s);
    match (cell_ref_spec(trimmed(a)), cell_ref_spec(trimmed(b))) {
        (Some((r1, c1)), Some((r2, c2))) => Some(
            MergeRange {
                start_row: min_usize(r1, r2),
                end_row: max_usize(r1, r2),
                start_col: min_usize(c1, c2),
                end_col: max_usize(c1, c2),
            },
        ),
        _ => None,
    }
}

proof fn lemma_prefix_before(s: Seq<char>, c: char, p: int)
    requires
        0 <= p <= s.len(),
        forall|j: int| 0 <= j < p ==> s[j] != c,
        p == s.len() || s[p] == c,
    ensures
        prefix_before(s, c) == s.subrange(0, p),
    decreases p,
{
    if p > 0 {
        let t = s.drop_first();
        assert forall|j: int| 0 <= j < p - 1 implies t[j] != c by {
            assert(t[j] == s[j + 1]);
        }
        lemma_prefix_before(t, c, p - 1);
        assert(s.subrange(0, p) =~= seq![s[0]] + t.subrange(0, p - 1));
    } else {
        assert(s.subrange(0, p) =~= Seq::<char>::empty());
    }
}

fn find_char(s: &str, c: char) -> (p: usize)
    ensures
        p <= s@.len(),
        prefix_before(s@, c) == s@.subrange(0, p as int),
{
    let n = s.unicode_len();
    let mut i: usize = 0;
    while i < n && s.get_char(i) != c
        invariant
            n == s@.len(),
            i <= n,
            forall|j: int| 0 <= j < i ==> s@[j] != c,
        decreases n - i,
    {
        i = i + 1;
    }
    proof {
        lemma_prefix_before(s@, c, i as int);
    }
    i
}

/// Decodes a range reference such as `B2:C4` (or a single cell `B2`) into
/// a region with `start <= end` on both axes; whitespace round either
/// endpoint is ignored.
pub fn parse_range_ref(range: &str) -> (r: Option<MergeRange>)
    ensures
        r == range_ref_spec(range@),
        r matches Some(m) ==> m.wf(),
{
    let n = range.unicode_len();
    let p = find_char(range, ':');
    let start = range.substring_char(0, p);
    let end = if p == n {
        start
    } else {
        let rest = range.substring_char(p + 1, n);
        let q = find_char(rest, ':');
        rest.substring_char(0, q)
    };
    let (start_row, start_col) = match parse_cell_ref(trim_text(start)) {
        Some(x) => x,
        None => {
            return None;
        },
    };
    let (end_row, end_col) = match parse_cell_ref(trim_text(end)) {
        Some(x) => x,
        None => {
            return None;
        },
    };
    let (row_min, row_max) = if start_row <= end_row {
        (start_row, end_row)
    } else {
        (end_row, start_row)
    };
    let (col_min, col_max) = if start_col <= end_col {
        (start_col, end_col)
    } else {
        (end_col, start_col)
    };
    Some(MergeRange { start_row: row_min, end_row: row_max, start_col: col_min, end_col: col_max })
}

} // verus!
