//! Naming of the output files and the summary handed back to the caller.

use vstd::prelude::*;
use crate::text::{decimal_text, push_decimal};

verus! {

/// One written output file.
pub struct SplitChunk {
    pub file_path: String,
    /// Header rows plus data rows.
    pub total_rows: usize,
    pub data_rows: usize,
}

/// What a split produced.
pub struct SplitResult {
    /// Rows of the source sheet, header included.
    pub total_rows: usize,
    pub header_rows: usize,
    pub chunks: Vec<SplitChunk>,
}

/// `<stem>_part<index>.xlsx`.
pub open spec fn output_name(stem: Seq<char>, index: nat) -> Seq<char> {
    stem + seq!['_', 'p', 'a', 'r', 't'] + decimal_text(index) + seq!['.', 'x', 'l', 's', 'x']
}

/// The file name of output chunk `index` (one-based), to be placed beside
/// the source file: the source's stem, or `split` where it has none.
pub fn build_output_path(stem: Option<&str>, index: usize) -> (r: String)
    ensures
        r@ == output_name(
            match stem {
                Some(s) => s@,
                None => seq!['s', 'p', 'l', 'i', 't'],
            },
            index as nat,
        ),
{
    let mut name = String::new();
    match stem {
        Some(s) => name.append(s),
        None => {
            name.push('s');
            name.push('p');
            name.push('l');
            name.push('i');
            name.push('t');
        },
    }
    name.push('_');
    name.push('p');
    name.push('a');
    name.push('r');
    name.push('t');
    push_decimal(&mut name, index as u64);
    name.push('.');
    name.push('x');
    name.push('l');
    name.push('s');
    name.push('x');
    proof {
        let st = match stem {
            Some(s) => s@,
            None => seq!['s', 'p', 'l', 'i', 't'],
        };
        assert(name@ =~= output_name(st, index as nat));
    }
    name
}

/// The status line that a front end shows.
pub enum StatusMessage {
    Idle,
    Info(String),
    Success(String),
    Error(String),
}

impl StatusMessage {
    pub fn info(msg: &str) -> (r: StatusMessage)
        ensures
            r matches StatusMessage::Info(m) && m@ == msg@,
    {
        StatusMessage::Info(msg.to_owned())
    }

    pub fn success(msg: &str) -> (r: StatusMessage)
        ensures
            r matches StatusMessage::Success(m) && m@ == msg@,
    {
        StatusMessage::Success(msg.to_owned())
    }

    pub fn error(msg: &str) -> (r: StatusMessage)
        ensures
            r matches StatusMessage::Error(m) && m@ == msg@,
    {
        StatusMessage::Error(msg.to_owned())
    }
}

} // verus!
