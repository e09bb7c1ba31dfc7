//! Splits the first worksheet of a spreadsheet into several smaller
//! workbooks that each repeat the header rows, keeping the merged-cell
//! regions that lie wholly inside one output file.

pub mod cell;
pub mod cellref;
pub mod chunk;
pub mod container;
pub mod counts;
pub mod laws;
pub mod output;
pub mod split;
pub mod text;
pub mod writer;

pub use cell::{
    CalendarFields, CellValue, convert_row, format_cell, format_datetime, format_float_text,
    format_int,
};
pub use cellref::{
    MergeRange, column_index_to_label, column_label_to_index, parse_cell_ref, parse_range_ref,
};
pub use chunk::{
    ChunkMerge, ChunkPlan, PreparedChunk, SplitError, get_cell_value, map_chunk_merges,
    map_row_to_chunk, plan_chunks, row_in_chunk, split_sheet,
};
pub use counts::{
    CountError, RequestError, check_split_request, parse_count, parse_header_rows, parse_row_limit,
    parse_trimmed_count,
};
pub use container::{
    XmlAttr, XmlTag, find_sheet_rel_id, find_sheet_target, lookup_tag_attr, merges_in_tags,
    parse_merge_cells, sheet_part_path, supports_merge_extraction,
};
pub use output::{SplitChunk, SplitResult, StatusMessage, build_output_path};
pub use split::{OutputFile, split_workbook, summarize};
pub use writer::{build_chunk_sheet, write_chunk};
