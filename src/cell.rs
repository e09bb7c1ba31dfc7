//! Canonical display text of a typed cell value.

use vstd::prelude::*;
use crate::text::{decimal_text, push_decimal};

verus! {

/// Calendar fields of a date-time cell, in the value's local calendar.
pub struct CalendarFields {
    pub year: u32,
    pub month: u32,
    pub day: u32,
    pub hour: u32,
    pub minute: u32,
    pub second: u32,
}

/// A typed cell value as the spreadsheet reader hands it over.
pub enum CellValue {
    Empty,
    Text(String),
    Bool(bool),
    Int(i64),
    /// A floating-point value, given by its decimal rendering: no decimal
    /// digits where the value is integral, else the shortest rendering that
    /// reads back as the same value; `inf` / `NaN` for non-finite values.
    Float(String),
    /// A date-time whose serial value converts to calendar fields.
    DateTime(CalendarFields),
    /// A date-time whose serial value does not convert: its serial value as text.
    DateTimeSerial(String),
    /// A date, time or duration already given as text.
    IsoText(String),
    /// An error cell, with the description of its error code.
    Error(String),
}

/// `s` with every trailing `'0'` removed.
pub open spec fn strip_trailing_zeros(s: Seq<char>) -> Seq<char>
    decreases s.len(),
{
    if s.len() > 0 && s.last() == '0' {
        strip_trailing_zeros(s.drop_last())
    } else {
        s
    }
}

/// A float's decimal rendering with trailing zeros after the decimal point
/// removed, keeping at least one digit after it.
pub open spec fn float_text(repr: Seq<char>) -> Seq<char> {
    if repr.contains('.') {
        let t = strip_trailing_zeros(repr);
        if t.len() > 0 && t.last() == '.' {
            t.push('0')
        } else {
            t
        }
    } else {
        repr
    }
}

/// Decimal text of an integer, with a leading `-` when negative.
pub open spec fn int_text(i: int) -> Seq<char> {
    if i < 0 {
        seq!['-'] + decimal_text((-i) as nat)
    } else {
        decimal_text(i as nat)
    }
}

/// Decimal text of `n` padded with zeros to at least two digits.
pub open spec fn pad2(n: nat) -> Seq<char> {
    if n < 10 {
        seq!['0'] + decimal_text(n)
    } else {
        decimal_text(n)
    }
}

/// Decimal text of `n` padded with zeros to at least four digits.
pub open spec fn pad4(n: nat) -> Seq<char> {
    if n < 10 {
        seq!['0', '0', '0'] + decimal_text(n)
    } else if n < 100 {
        seq!['0', '0'] + decimal_text(n)
    } else if n < 1000 {
        seq!['0'] + decimal_text(n)
    } else {
        decimal_text(n)
    }
}

/// `YYYY-MM-DD HH:MM:SS`.
pub open spec fn datetime_text(f: CalendarFields) -> Seq<char> {
    pad4(f.year as nat) + seq!['-'] + pad2(f.month as nat) + seq!['-'] + pad2(f.day as nat)
        + seq![' '] + pad2(f.hour as nat) + seq![':'] + pad2(f.minute as nat) + seq![':']
        + pad2(f.second as nat)
}

/// The marker placed before an error cell's description.
pub open spec fn error_marker() -> Seq<char> {
    seq!['错', '误', ':', ' ']
}

/// The canonical text of a cell value.
pub open spec fn cell_text(v: CellValue) -> Seq<char> {
    match v {
        CellValue::Empty => Seq::empty(),
        CellValue::Text(s) => s@,
        CellValue::Bool(b) => if b {
            seq!['T', 'R', 'U', 'E']
        } else {
            seq!['F', 'A', 'L', 'S', 'E']
        },
        CellValue::Int(i) => int_text(i as int),
        CellValue::Float(repr) => float_text(repr@),
        CellValue::DateTime(f) => datetime_text(f),
        CellValue::DateTimeSerial(s) => s@,
        CellValue::IsoText(s) => s@,
        CellValue::Error(e) => error_marker() + e@,
    }
}

fn contains_char(s: &str, c: char) -> (r: bool)
    ensures
        r == s@.contains(c),
{
    let n = s.unicode_len();
    let mut i: usize = 0;
    while i < n
        invariant
            n == s@.len(),
            i <= n,
            forall|j: int| 0 <= j < i ==> s@[j] != c,
        decreases n - i,
    {
        if s.get_char(i) == c {
            return true;
        }
        i = i + 1;
    }
    false
}

proof fn lemma_strip_keeps_point(s: Seq<char>)
    requires
        s.contains('.'),
    ensures
        strip_trailing_zeros(s).len() > 0,
        strip_trailing_zeros(s).contains('.'),
    decreases s.len(),
{
    if s.len() > 0 && s.last() == '0' {
        let j = choose|j: int| 0 <= j < s.len() && s[j] == '.';
        assert(s.drop_last()[j] == '.');
        lemma_strip_keeps_point(s.drop_last());
    }
}

proof fn lemma_strip_idempotent(s: Seq<char>)
    ensures
        strip_trailing_zeros(strip_trailing_zeros(s)) == strip_trailing_zeros(s),
    decreases s.len(),
{
    if s.len() > 0 && s.last() == '0' {
        lemma_strip_idempotent(s.drop_last());
    }
}

/// Normalising a float's text twice gives what normalising it once gives.
pub proof fn lemma_float_text_idempotent(repr: Seq<char>)
    ensures
        float_text(float_text(repr)) == float_text(repr),
{
    if repr.contains('.') {
        lemma_strip_keeps_point(repr);
        lemma_strip_idempotent(repr);
        let t = strip_trailing_zeros(repr);
        let u = float_text(repr);
        let j = choose|j: int| 0 <= j < t.len() && t[j] == '.';
        if t.last() == '.' {
            assert(u == t.push('0'));
            assert(u[j] == '.');
            assert(u.drop_last() =~= t);
        } else {
            assert(u == t);
        }
        assert(u[j] == '.');
    }
}

/// Removes the trailing zeros after the decimal point of a float's decimal
/// rendering, keeping at least one digit after the point: `1.50` gives
/// `1.5`, `2.000` gives `2.0`; a rendering without a point is kept as is.
pub fn format_float_text(repr: &str) -> (r: String)
    ensures
        r@ == float_text(repr@),
{
    if !contains_char(repr, '.') {
        return repr.to_owned();
    }
    let n = repr.unicode_len();
    let mut k: usize = n;
    assert(repr@.subrange(0, n as int) =~= repr@);
    while k > 0 && repr.get_char(k - 1) == '0'
        invariant
            n == repr@.len(),
            k <= n,
            strip_trailing_zeros(repr@.subrange(0, k as int)) == strip_trailing_zeros(repr@),
        decreases k,
    {
        assert(repr@.subrange(0, k as int).drop_last() =~= repr@.subrange(0, k - 1));
        k = k - 1;
    }
    let mut t = repr.substring_char(0, k).to_owned();
    proof {
        lemma_strip_keeps_point(repr@);
    }
    if k > 0 && repr.get_char(k - 1) == '.' {
        t.push('0');
    }
    t
}

fn push_pad2(s: &mut String, n: u32)
    ensures
        final(s)@ == old(s)@ + pad2(n as nat),
{
    if n < 10 {
        s.push('0');
    }
    push_decimal(s, n as u64);
    assert(final(s)@ =~= old(s)@ + pad2(n as nat));
}

fn push_pad4(s: &mut String, n: u32)
    ensures
        final(s)@ == old(s)@ + pad4(n as nat),
{
    if n < 10 {
        s.push('0');
    }
    if n < 100 {
        s.push('0');
    }
    if n < 1000 {
        s.push('0');
    }
    push_decimal(s, n as u64);
    assert(final(s)@ =~= old(s)@ + pad4(n as nat));
}

/// Writes calendar fields as `YYYY-MM-DD HH:MM:SS`.
pub fn format_datetime(f: &CalendarFields) -> (r: String)
    ensures
        r@ == datetime_text(*f),
{
    let mut s = String::new();
    push_pad4(&mut s, f.year);
    s.push('-');
    push_pad2(&mut s, f.month);
    s.push('-');
    push_pad2(&mut s, f.day);
    s.push(' ');
    push_pad2(&mut s, f.hour);
    s.push(':');
    push_pad2(&mut s, f.minute);
    s.push(':');
    push_pad2(&mut s, f.second);
    assert(s@ =~= datetime_text(*f));
    s
}

/// Decimal text of an integer.
pub fn format_int(i: i64) -> (r: String)
    ensures
        r@ == int_text(i as int),
{
    let mut s = String::new();
    if i < 0 {
        s.push('-');
        let m = (-(i as i128)) as u64;
        push_decimal(&mut s, m);
    } else {
        push_decimal(&mut s, i as u64);
    }
    assert(s@ =~= int_text(i as int));
    s
}

/// The canonical text of a cell value; never fails.
pub fn format_cell(value: &CellValue) -> (r: String)
    ensures
        r@ == cell_text(*value),
{
    match value {
        CellValue::Empty => String::new(),
        CellValue::Text(s) => s.clone(),
        CellValue::Bool(b) => {
            let mut s = String::new();
            if *b {
                s.push('T');
                s.push('R');
                s.push('U');
                s.push('E');
            } else {
                s.push('F');
                s.push('A');
                s.push('L');
                s.push('S');
                s.push('E');
            }
            assert(s@ =~= cell_text(*value));
            s
        },
        CellValue::Int(i) => format_int(*i),
        CellValue::Float(repr) => format_float_text(repr.as_str()),
        CellValue::DateTime(f) => format_datetime(f),
        CellValue::DateTimeSerial(s) => s.clone(),
        CellValue::IsoText(s) => s.clone(),
        CellValue::Error(e) => {
            let mut s = String::new();
            s.push('错');
            s.push('误');
            s.push(':');
            s.push(' ');
            s.append(e.as_str());
            assert(s@ =~= cell_text(*value));
            s
        },
    }
}

/// The canonical text of each cell of a row, in column order.
pub fn convert_row(row: &[CellValue]) -> (r: Vec<String>)
    ensures
        r@.len() == row@.len(),
        forall|j: int| 0 <= j < row@.len() ==> (#[trigger] r@[j])@ == cell_text(row@[j]),
{
    let mut out: Vec<String> = Vec::new();
    let mut j: usize = 0;
    while j < row.len()
        invariant
            j <= row@.len(),
            out@.len() == j,
            forall|k: int| 0 <= k < j ==> (#[trigger] out@[k])@ == cell_text(row@[k]),
        decreases row@.len() - j,
    {
        out.push(format_cell(&row[j]));
        j = j + 1;
    }
    out
}

} // verus!
