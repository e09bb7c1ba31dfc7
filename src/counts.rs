//! Reading the row counts that a user types in.

use vstd::prelude::*;
use crate::cellref::{digits_value, is_digit};
use crate::text::{trim_text, trimmed};

verus! {

/// Why a typed row count was refused.
#[derive(Debug, PartialEq, Eq)]
pub enum CountError {
    /// Nothing but whitespace was typed.
    Empty,
    /// The text is not a whole number that fits in `usize`.
    NotANumber,
    /// The number is zero.
    Zero,
}

pub open spec fn all_digits(s: Seq<char>) -> bool {
    forall|i: int| 0 <= i < s.len() ==> is_digit(#[trigger] s[i])
}

/// A positive count written in decimal, with an optional leading `+`.
pub open spec fn count_spec(t: Seq<char>) -> Result<usize, CountError> {
    if t.len() == 0 {
        Err(CountError::Empty)
    } else {
        let d = if t[0] == '+' {
            t.drop_first()
        } else {
            t
        };
        if d.len() == 0 || !all_digits(d) || digits_value(d) > usize::MAX {
            Err(CountError::NotANumber)
        } else if digits_value(d) == 0 {
            Err(CountError::Zero)
        } else {
            Ok(digits_value(d) as usize)
        }
    }
}

proof fn lemma_value_prefix(s: Seq<char>, i: int)
    requires
        0 <= i <= s.len(),
        all_digits(s),
    ensures
        digits_value(s.subrange(0, i)) <= digits_value(s),
    decreases s.len() - i,
{
    if i < s.len() {
        lemma_value_prefix(s, i + 1);
        assert(s.subrange(0, i + 1).drop_last() =~= s.subrange(0, i));
    } else {
        assert(s.subrange(0, i) =~= s);
    }
}

/// Reads a positive count from text that has already been trimmed.
pub fn parse_trimmed_count(t: &str) -> (r: Result<usize, CountError>)
    ensures
        r == count_spec(t@),
{
    let n = t.unicode_len();
    if n == 0 {
        return Err(CountError::Empty);
    }
    let start: usize = if t.get_char(0) == '+' {
        1
    } else {
        0
    };
    let d = t.substring_char(start, n);
    assert(d@ =~= if t@[0] == '+' {
        t@.drop_first()
    } else {
        t@
    });
    let m = d.unicode_len();
    if m == 0 {
        return Err(CountError::NotANumber);
    }
    let mut value: usize = 0;
    let mut i: usize = 0;
    while i < m
        invariant
            t@.len() > 0,
            d@ == (if t@[0] == '+' {
                t@.drop_first()
            } else {
                t@
            }),
            m == d@.len(),
            i <= m,
            all_digits(d@.subrange(0, i as int)),
            value as nat == digits_value(d@.subrange(0, i as int)),
        decreases m - i,
    {
        let ch = d.get_char(i);
        assert(d@.subrange(0, i + 1).drop_last() =~= d@.subrange(0, i as int));
        assert(d@.subrange(0, i + 1).last() == ch);
        if !('0' <= ch && ch <= '9') {
            assert(!all_digits(d@));
            return Err(CountError::NotANumber);
        }
        let digit = (ch as u32 - '0' as u32) as usize;
        if value > (usize::MAX - digit) / 10 {
            assert forall|k: int| 0 <= k < i + 1 implies is_digit(#[trigger] d@.subrange(0, i + 1)[k]) by {
                if k < i {
                    assert(d@.subrange(0, i + 1)[k] == d@.subrange(0, i as int)[k]);
                }
            }
            proof {
                if all_digits(d@) {
                    lemma_value_prefix(d@, i + 1);
                }
            }
            return Err(CountError::NotANumber);
        }
        value = value * 10 + digit;
        i = i + 1;
        assert forall|k: int| 0 <= k < i implies is_digit(#[trigger] d@.subrange(0, i as int)[k]) by {
            if k < i - 1 {
                assert(d@.subrange(0, i as int)[k] == d@.subrange(0, i - 1)[k]);
            }
        }
    }
    assert(d@.subrange(0, m as int) =~= d@);
    if value == 0 {
        return Err(CountError::Zero);
    }
    Ok(value)
}

/// Reads a positive count typed by a user: surrounding whitespace is
/// ignored.
pub fn parse_count(input: &str) -> (r: Result<usize, CountError>)
    ensures
        r == count_spec(trimmed(input@)),
{
    parse_trimmed_count(trim_text(input))
}

/// Reads the number of header rows that a user typed.
pub fn parse_header_rows(input: &str) -> (r: Result<usize, CountError>)
    ensures
        r == count_spec(trimmed(input@)),
{
    parse_count(input)
}

/// Reads the largest number of rows per output file that a user typed.
pub fn parse_row_limit(input: &str) -> (r: Result<usize, CountError>)
    ensures
        r == count_spec(trimmed(input@)),
{
    parse_count(input)
}

/// Why a split request was not started.
#[derive(Debug, PartialEq, Eq)]
pub enum RequestError {
    /// No source file was chosen.
    NoFile,
    /// The header row count was refused.
    HeaderRows(CountError),
    /// The rows-per-file count was refused.
    RowLimit(CountError),
    /// The rows per file do not exceed the header rows.
    LimitNotAboveHeader,
}

/// What a split request gives: the header row count and the rows-per-file
/// limit, or the first reason, in this order, to refuse it.
pub open spec fn request_spec(has_file: bool, header_input: Seq<char>, row_input: Seq<char>) -> Result<
    (usize, usize),
    RequestError,
> {
    if !has_file {
        Err(RequestError::NoFile)
    } else {
        match count_spec(trimmed(header_input)) {
            Err(e) => Err(RequestError::HeaderRows(e)),
            Ok(h) => match count_spec(trimmed(row_input)) {
                Err(e) => Err(RequestError::RowLimit(e)),
                Ok(limit) => if limit <= h {
                    Err(RequestError::LimitNotAboveHeader)
                } else {
                    Ok((h, limit))
                },
            },
        }
    }
}

/// Checks a split request typed by a user before any work starts.
pub fn check_split_request(has_file: bool, header_input: &str, row_input: &str) -> (r: Result<
    (usize, usize),
    RequestError,
>)
    ensures
        r == request_spec(has_file, header_input@, row_input@),
{
    if !has_file {
        return Err(RequestError::NoFile);
    }
    let header_rows = match parse_header_rows(header_input) {
        Ok(v) => v,
        Err(e) => {
            return Err(RequestError::HeaderRows(e));
        },
    };
    let row_limit = match parse_row_limit(row_input) {
        Ok(v) => v,
        Err(e) => {
            return Err(RequestError::RowLimit(e));
        },
    };
    if row_limit <= header_rows {
        return Err(RequestError::LimitNotAboveHeader);
    }
    Ok((header_rows, row_limit))
}

} // verus!
