//! The whole split of one sheet: chunks planned, filled and rendered as
//! named xlsx files.

use vstd::prelude::*;
use crate::cellref::MergeRange;
use crate::chunk::{
    PreparedChunk, SplitError, chunk_count, expected_chunk, is_split_of, lemma_plan_bounds, params_valid, plan_at,
    split_sheet,
};
use crate::output::{SplitChunk, SplitResult, build_output_path, output_name};
use crate::writer::write_chunk;

verus! {

/// One rendered output file, to be written beside the source.
pub struct OutputFile {
    pub name: String,
    pub bytes: Vec<u8>,
    /// Header rows plus data rows.
    pub total_rows: usize,
    pub data_rows: usize,
}

pub open spec fn stem_view(stem: Option<&str>) -> Seq<char> {
    match stem {
        Some(s) => s@,
        None => seq!['s', 'p', 'l', 'i', 't'],
    }
}

/// Splits a sheet's rows and renders each chunk as an xlsx file named
/// `<stem>_part<index>.xlsx`.
pub fn split_workbook(
    rows: &Vec<Vec<String>>,
    merges: &Vec<MergeRange>,
    chunk_size: usize,
    header_rows: usize,
    stem: Option<&str>,
) -> (r: Result<Vec<OutputFile>, SplitError>)
    ensures
        !params_valid(chunk_size as nat, header_rows as nat) <==> r matches Err(
            SplitError::InvalidParameter,
        ),
        params_valid(chunk_size as nat, header_rows as nat) && rows@.len() < header_rows <==> r matches Err(
            SplitError::RowCountBelowHeader,
        ),
        r is Ok || r matches Err(SplitError::InvalidParameter) || r matches Err(
            SplitError::RowCountBelowHeader,
        ) || r matches Err(SplitError::WriteError),
        r matches Ok(v) ==> {
            let d = (rows@.len() - header_rows) as nat;
            let cap = (chunk_size - header_rows) as nat;
            &&& v@.len() == chunk_count(d, cap)
            &&& forall|k: int|
                0 <= k < v@.len() ==> {
                    &&& (#[trigger] v@[k]).name@ == output_name(stem_view(stem), (k + 1) as nat)
                    &&& v@[k].data_rows == plan_at(k as nat, d, cap).1 - plan_at(k as nat, d, cap).0
                    &&& v@[k].total_rows == header_rows + v@[k].data_rows
                }
        },
{
    let chunks = match split_sheet(rows, merges, chunk_size, header_rows) {
        Ok(c) => c,
        Err(e) => {
            return Err(e);
        },
    };
    let ghost d = (rows@.len() - header_rows) as nat;
    let ghost cap = (chunk_size - header_rows) as nat;
    let ghost views = chunks@.map_values(|c: PreparedChunk| c@);
    assert(is_split_of(rows.deep_view(), merges@, chunk_size as nat, header_rows as nat, views));
    let mut files: Vec<OutputFile> = Vec::new();
    let total = rows.len();
    let mut k: usize = 0;
    while k < chunks.len()
        invariant
            total == rows@.len(),
            params_valid(chunk_size as nat, header_rows as nat),
            rows@.len() >= header_rows,
            d == rows@.len() - header_rows,
            cap == chunk_size - header_rows,
            views == chunks@.map_values(|c: PreparedChunk| c@),
            is_split_of(rows.deep_view(), merges@, chunk_size as nat, header_rows as nat, views),
            k <= chunks@.len(),
            files@.len() == k,
            forall|j: int|
                0 <= j < k ==> {
                    &&& (#[trigger] files@[j]).name@ == output_name(stem_view(stem), (j + 1) as nat)
                    &&& files@[j].data_rows == plan_at(j as nat, d, cap).1 - plan_at(j as nat, d, cap).0
                    &&& files@[j].total_rows == header_rows + files@[j].data_rows
                },
        decreases chunks@.len() - k,
    {
        let chunk = &chunks[k];
        assert(views[k as int] == chunk@);
        proof {
            lemma_plan_bounds(k as nat, d, cap);
            assert(views[k as int] == expected_chunk(
                rows.deep_view(),
                merges@,
                header_rows as nat,
                cap,
                k as nat,
            ));
            assert(chunk.data@.len() == chunk@.data.len());
        }
        let bytes = match write_chunk(&chunk.header, &chunk.data, &chunk.merges) {
            Ok(b) => b,
            Err(e) => {
                return Err(e);
            },
        };
        let name = build_output_path(stem, chunk.index);
        let data_rows = chunk.data.len();
        files.push(OutputFile { name, bytes, total_rows: header_rows + data_rows, data_rows });
        k = k + 1;
    }
    Ok(files)
}

/// The summary of a split: the source's row count, the header row count,
/// and for each rendered file the path it was written to and its rows.
pub fn summarize(
    rows: &Vec<Vec<String>>,
    header_rows: usize,
    files: &Vec<OutputFile>,
    paths: &Vec<String>,
) -> (r: SplitResult)
    requires
        paths@.len() == files@.len(),
    ensures
        r.total_rows == rows@.len(),
        r.header_rows == header_rows,
        r.chunks@.len() == files@.len(),
        forall|k: int|
            0 <= k < files@.len() ==> {
                &&& (#[trigger] r.chunks@[k]).file_path@ == paths@[k]@
                &&& r.chunks@[k].total_rows == files@[k].total_rows
                &&& r.chunks@[k].data_rows == files@[k].data_rows
            },
{
    let mut chunks: Vec<SplitChunk> = Vec::new();
    let mut k: usize = 0;
    while k < files.len()
        invariant
            paths@.len() == files@.len(),
            k <= files@.len(),
            chunks@.len() == k,
            forall|j: int|
                0 <= j < k ==> {
                    &&& (#[trigger] chunks@[j]).file_path@ == paths@[j]@
                    &&& chunks@[j].total_rows == files@[j].total_rows
                    &&& chunks@[j].data_rows == files@[j].data_rows
                },
        decreases files@.len() - k,
    {
        chunks.push(
            SplitChunk {
                file_path: paths[k].clone(),
                total_rows: files[k].total_rows,
                data_rows: files[k].data_rows,
            },
        );
        k = k + 1;
    }
    SplitResult { total_rows: rows.len(), header_rows, chunks }
}

} // verus!
