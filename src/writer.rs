//! Serialising one chunk as an xlsx workbook.

use rust_xlsxwriter::{Format, Workbook, Worksheet, XlsxError};
use vstd::prelude::*;
use crate::chunk::{ChunkMerge, ChunkMergeView, GridView, SplitError};

verus! {

#[verifier::external_type_specification]
#[verifier::external_body]
pub struct ExWorksheet(Worksheet);

#[verifier::external_type_specification]
#[verifier::external_body]
pub struct ExWorkbook(Workbook);

#[verifier::external_type_specification]
#[verifier::external_body]
pub struct ExFormat(Format);

#[verifier::external_type_specification]
#[verifier::external_body]
pub struct ExXlsxError(XlsxError);

/// The text of each cell that a worksheet holds, by `(row, column)`; a
/// blank cell holds the empty text.
pub uninterp spec fn sheet_text(w: Worksheet) -> Map<(int, int), Seq<char>>;

/// The cells that the merged regions of a worksheet cover.
pub uninterp spec fn sheet_merged(w: Worksheet) -> Set<(int, int)>;

pub open spec fn no_cells() -> Map<(int, int), Seq<char>> {
    Map::empty()
}

pub open spec fn no_merged_cells() -> Set<(int, int)> {
    Set::empty()
}

/// Relies on rust_xlsxwriter's `Worksheet::new`: a worksheet with no cells
/// and no merged regions.
pub assume_specification[ Worksheet::new ]() -> (r: Worksheet)
    ensures
        sheet_text(r) == no_cells(),
        sheet_merged(r) == no_merged_cells(),
;

/// Relies on rust_xlsxwriter's `Workbook::new`: an empty workbook.
pub assume_specification[ Workbook::new ]() -> Workbook;

/// Relies on rust_xlsxwriter's `Format::new`: the default cell format.
pub assume_specification[ Format::new ]() -> Format;

/// Relies on rust_xlsxwriter's `Workbook::push_worksheet`: the sheet is
/// added to the workbook.
pub assume_specification[ Workbook::push_worksheet ](wb: &mut Workbook, worksheet: Worksheet);

/// Relies on rust_xlsxwriter's `Workbook::save_to_buffer`: the workbook's
/// xlsx bytes, or an error.
pub assume_specification[ Workbook::save_to_buffer ](wb: &mut Workbook) -> Result<Vec<u8>, XlsxError>;

/// Rows the writer can address.
pub const ROW_LIMIT: usize = 1048576;

/// Columns the writer can address.
pub const COL_LIMIT: usize = 16384;

/// Characters a cell can hold.
pub const TEXT_LIMIT: usize = 32767;

/// The writer accepts text `s` at `(row, col)`: an empty text is always
/// accepted (and writes nothing).
pub open spec fn cell_fits(row: int, col: int, s: Seq<char>) -> bool {
    s.len() == 0 || (row < ROW_LIMIT && col < COL_LIMIT && s.len() <= TEXT_LIMIT)
}

/// Every cell of `rows`, placed from sheet row `first_row` on, is accepted.
pub open spec fn rows_fit(rows: GridView, first_row: int) -> bool {
    forall|i: int, j: int|
        0 <= i < rows.len() && 0 <= j < rows[i].len() ==> cell_fits(first_row + i, j, #[trigger] rows[i][j])
}

/// The writer accepts merged region `m`: inside the sheet, more than one
/// cell, and its text within the cell limit.
pub open spec fn merge_fits(m: ChunkMergeView) -> bool {
    &&& m.start_row <= m.end_row < ROW_LIMIT
    &&& m.start_col <= m.end_col < COL_LIMIT
    &&& !(m.start_row == m.end_row && m.start_col == m.end_col)
    &&& m.value.len() <= TEXT_LIMIT
}

/// Relies on rust_xlsxwriter's `Worksheet::write_string`: an empty text is
/// ignored; other text is stored unless the cell lies beyond the sheet's
/// limits or the text is longer than a cell can hold.
#[verifier::external_body]
fn sheet_write_string(ws: &mut Worksheet, row: u32, col: u16, s: &str) -> (r: Result<(), XlsxError>)
    ensures
        r is Ok <==> cell_fits(row as int, col as int, s@),
        r is Ok && s@.len() > 0 ==> sheet_text(*final(ws)) == sheet_text(*old(ws)).insert(
            (row as int, col as int),
            s@,
        ),
        !(r is Ok && s@.len() > 0) ==> sheet_text(*final(ws)) == sheet_text(*old(ws)),
        sheet_merged(*final(ws)) == sheet_merged(*old(ws)),
{
    ws.write_string(row, col, s).map(|_| ())
}

/// The cells of a merged region: its text in the top-left cell, the other
/// cells blank.
pub open spec fn region_text(m: ChunkMergeView) -> Map<(int, int), Seq<char>> {
    Map::new(
        |k: (int, int)| m.start_row <= k.0 <= m.end_row && m.start_col <= k.1 <= m.end_col,
        |k: (int, int)| if k == (m.start_row as int, m.start_col as int) {
            m.value
        } else {
            Seq::empty()
        },
    )
}

/// The cells that merged region `m` covers.
pub open spec fn region_cells(m: ChunkMergeView) -> Set<(int, int)> {
    Set::new(|k: (int, int)| m.start_row <= k.0 <= m.end_row && m.start_col <= k.1 <= m.end_col)
}

/// Relies on rust_xlsxwriter's `Worksheet::merge_range`: it fails exactly on
/// a region beyond the sheet's limits, with its ends out of order, of a
/// single cell, with a text longer than a cell can hold, or overlapping an
/// earlier region; on success the region's top-left cell holds the text,
/// its other cells are blank, and its cells count as merged.
#[verifier::external_body]
fn sheet_merge_range(
    ws: &mut Worksheet,
    first_row: u32,
    first_col: u16,
    last_row: u32,
    last_col: u16,
    s: &str,
    format: &Format,
) -> (r: Result<(), XlsxError>)
    ensures
        r is Ok ==> merge_fits(
            ChunkMergeView {
                start_row: first_row,
                end_row: last_row,
                start_col: first_col,
                end_col: last_col,
                value: s@,
            },
        ),
        merge_fits(
            ChunkMergeView {
                start_row: first_row,
                end_row: last_row,
                start_col: first_col,
                end_col: last_col,
                value: s@,
            },
        ) && region_cells(
            ChunkMergeView {
                start_row: first_row,
                end_row: last_row,
                start_col: first_col,
                end_col: last_col,
                value: s@,
            },
        ).disjoint(sheet_merged(*old(ws))) ==> r is Ok,
        r is Ok ==> sheet_merged(*final(ws)) == sheet_merged(*old(ws)).union(
            region_cells(
                ChunkMergeView {
                    start_row: first_row,
                    end_row: last_row,
                    start_col: first_col,
                    end_col: last_col,
                    value: s@,
                },
            ),
        ),
        r is Ok ==> sheet_text(*final(ws)) == sheet_text(*old(ws)).union_prefer_right(
            region_text(
                ChunkMergeView {
                    start_row: first_row,
                    end_row: last_row,
                    start_col: first_col,
                    end_col: last_col,
                    value: s@,
                },
            ),
        ),
{
    ws.merge_range(first_row, first_col, last_row, last_col, s, format).map(|_| ())
}

/// The text cells of `rows` placed from sheet row `first_row` on: each
/// cell whose text is not empty.
pub open spec fn rows_text(rows: GridView, first_row: int) -> Map<(int, int), Seq<char>> {
    Map::new(
        |k: (int, int)|
            first_row <= k.0 < first_row + rows.len() && 0 <= k.1 < rows[k.0 - first_row].len()
                && rows[k.0 - first_row][k.1].len() > 0,
        |k: (int, int)| rows[k.0 - first_row][k.1],
    )
}

/// The first `j` cells of one row placed at sheet row `row`.
pub open spec fn row_prefix_text(cells: Seq<Seq<char>>, row: int, j: int) -> Map<
    (int, int),
    Seq<char>,
> {
    Map::new(
        |k: (int, int)| k.0 == row && 0 <= k.1 < j && cells[k.1].len() > 0,
        |k: (int, int)| cells[k.1],
    )
}

/// `base` with the merged regions `ms` applied in order.
pub open spec fn with_merges(base: Map<(int, int), Seq<char>>, ms: Seq<ChunkMergeView>) -> Map<
    (int, int),
    Seq<char>,
>
    decreases ms.len(),
{
    if ms.len() == 0 {
        base
    } else {
        with_merges(base, ms.drop_last()).union_prefer_right(region_text(ms.last()))
    }
}

/// The cell text of a chunk's sheet: the header rows from row 0, the data
/// rows after them, then each merged region in order.
pub open spec fn chunk_sheet_text(
    header: GridView,
    data: GridView,
    merges: Seq<ChunkMergeView>,
) -> Map<(int, int), Seq<char>> {
    with_merges(rows_text(header, 0).union_prefer_right(rows_text(data, header.len() as int)), merges)
}

fn write_rows(ws: &mut Worksheet, rows: &Vec<Vec<String>>, first_row: usize) -> (r: bool)
    ensures
        r == rows_fit(rows.deep_view(), first_row as int),
        r ==> sheet_text(*final(ws)) == sheet_text(*old(ws)).union_prefer_right(
            rows_text(rows.deep_view(), first_row as int),
        ),
        sheet_merged(*final(ws)) == sheet_merged(*old(ws)),
{
    let ghost g = rows.deep_view();
    let ghost base = sheet_text(*ws);
    let ghost merged = sheet_merged(*ws);
    let mut i: usize = 0;
    proof {
        assert(base.union_prefer_right(rows_text(g.subrange(0, 0), first_row as int)) =~= base);
    }
    while i < rows.len()
        invariant
            i <= rows@.len(),
            g == rows.deep_view(),
            forall|a: int, b: int|
                0 <= a < i && 0 <= b < g[a].len() ==> cell_fits(first_row + a, b, #[trigger] g[a][b]),
            sheet_text(*ws) == base.union_prefer_right(
                rows_text(g.subrange(0, i as int), first_row as int),
            ),
            sheet_merged(*ws) == merged,
            merged == sheet_merged(*old(ws)),
        decreases rows@.len() - i,
    {
        let row = &rows[i];
        let ghost cells = g[i as int];
        let ghost done = base.union_prefer_right(rows_text(g.subrange(0, i as int), first_row as int));
        let mut j: usize = 0;
        proof {
            assert(done.union_prefer_right(row_prefix_text(cells, first_row + i, 0)) =~= done);
        }
        while j < row.len()
            invariant
                i < rows@.len(),
                row == rows@[i as int],
                cells == g[i as int],
                cells == row.deep_view(),
                j <= row@.len(),
                g == rows.deep_view(),
                forall|a: int, b: int|
                    0 <= a < i && 0 <= b < g[a].len() ==> cell_fits(first_row + a, b, #[trigger] g[a][b]),
                forall|b: int| 0 <= b < j ==> cell_fits(first_row + i, b, #[trigger] g[i as int][b]),
                sheet_text(*ws) == done.union_prefer_right(
                    row_prefix_text(cells, first_row + i, j as int),
                ),
                sheet_merged(*ws) == merged,
                merged == sheet_merged(*old(ws)),
            decreases row@.len() - j,
        {
            let text = &row[j];
            assert(g[i as int][j as int] == text@);
            let ghost before = sheet_text(*ws);
            let fits_index = first_row <= u32::MAX as usize && i <= u32::MAX as usize - first_row
                && j <= u16::MAX as usize;
            if fits_index {
                if sheet_write_string(ws, (first_row + i) as u32, j as u16, text.as_str()).is_err() {
                    return false;
                }
            } else if text.unicode_len() > 0 {
                return false;
            }
            proof {
                assert(sheet_text(*ws) =~= done.union_prefer_right(
                    row_prefix_text(cells, first_row + i, j + 1),
                ));
            }
            j = j + 1;
        }
        proof {
            assert(done.union_prefer_right(row_prefix_text(cells, first_row + i, row@.len() as int))
                =~= base.union_prefer_right(
                rows_text(g.subrange(0, i + 1), first_row as int),
            ));
        }
        i = i + 1;
    }
    proof {
        assert(g.subrange(0, rows@.len() as int) =~= g);
    }
    true
}

/// Every region fits the writer and no two regions share a cell.
pub open spec fn merges_acceptable(ms: Seq<ChunkMergeView>) -> bool {
    &&& forall|a: int| 0 <= a < ms.len() ==> merge_fits(#[trigger] ms[a])
    &&& forall|a: int, b: int|
        0 <= a < b < ms.len() ==> region_cells(#[trigger] ms[a]).disjoint(region_cells(#[trigger] ms[b]))
}

/// Builds the worksheet of one chunk: the header rows from the first row
/// on, the data rows right after them, then each merged region with its
/// text. Fails with `WriteError` where the writer refuses a cell or a
/// region.
pub fn build_chunk_sheet(
    header_rows: &Vec<Vec<String>>,
    data_rows: &Vec<Vec<String>>,
    merges: &Vec<ChunkMerge>,
) -> (r: Result<Worksheet, SplitError>)
    ensures
        r matches Err(e) ==> e == SplitError::WriteError,
        r is Ok ==> rows_fit(header_rows.deep_view(), 0) && rows_fit(
            data_rows.deep_view(),
            header_rows@.len() as int,
        ),
        r is Ok ==> forall|k: int| 0 <= k < merges@.len() ==> merge_fits(#[trigger] merges@[k]@),
        !(rows_fit(header_rows.deep_view(), 0) && rows_fit(
            data_rows.deep_view(),
            header_rows@.len() as int,
        )) ==> r is Err,
        rows_fit(header_rows.deep_view(), 0) && rows_fit(
            data_rows.deep_view(),
            header_rows@.len() as int,
        ) && merges_acceptable(merges@.map_values(|m: ChunkMerge| m@)) ==> r is Ok,
        r matches Ok(ws) ==> sheet_text(ws) == chunk_sheet_text(
            header_rows.deep_view(),
            data_rows.deep_view(),
            merges@.map_values(|m: ChunkMerge| m@),
        ),
{
    let mut ws = Worksheet::new();
    if !write_rows(&mut ws, header_rows, 0) {
        return Err(SplitError::WriteError);
    }
    if !write_rows(&mut ws, data_rows, header_rows.len()) {
        return Err(SplitError::WriteError);
    }
    proof {
        assert(no_cells().union_prefer_right(rows_text(header_rows.deep_view(), 0)) =~= rows_text(
            header_rows.deep_view(),
            0,
        ));
    }
    let ghost rows_only = rows_text(header_rows.deep_view(), 0).union_prefer_right(
        rows_text(data_rows.deep_view(), header_rows@.len() as int),
    );
    let ghost mviews = merges@.map_values(|m: ChunkMerge| m@);
    let format = Format::new();
    let mut k: usize = 0;
    proof {
        assert(mviews.subrange(0, 0) =~= Seq::<ChunkMergeView>::empty());
    }
    while k < merges.len()
        invariant
            k <= merges@.len(),
            mviews == merges@.map_values(|m: ChunkMerge| m@),
            forall|a: int| 0 <= a < k ==> merge_fits(#[trigger] merges@[a]@),
            sheet_text(ws) == with_merges(rows_only, mviews.subrange(0, k as int)),
            forall|c: (int, int)|
                #[trigger] sheet_merged(ws).contains(c) ==> exists|a: int|
                    0 <= a < k && region_cells(mviews[a]).contains(c),
        decreases merges@.len() - k,
    {
        let m = &merges[k];
        proof {
            assert(mviews.subrange(0, k + 1).drop_last() =~= mviews.subrange(0, k as int));
            assert(mviews.subrange(0, k + 1).last() == m@);
        }
        let ghost before = sheet_merged(ws);
        proof {
            if merges_acceptable(mviews) {
                assert(mviews[k as int] == m@);
                assert forall|c: (int, int)| region_cells(m@).contains(c) implies !before.contains(c) by {
                    if before.contains(c) {
                        let a = choose|a: int| 0 <= a < k && region_cells(mviews[a]).contains(c);
                        assert(region_cells(mviews[a]).disjoint(region_cells(mviews[k as int])));
                    }
                }
                assert(merge_fits(mviews[k as int]));
            }
        }
        if sheet_merge_range(&mut ws, m.start_row, m.start_col, m.end_row, m.end_col, m.value.as_str(), &format).is_err() {
            return Err(SplitError::WriteError);
        }
        proof {
            assert forall|c: (int, int)| #[trigger] sheet_merged(ws).contains(c) implies exists|a: int|
                0 <= a < k + 1 && region_cells(mviews[a]).contains(c) by {
                if before.contains(c) {
                    let a = choose|a: int| 0 <= a < k && region_cells(mviews[a]).contains(c);
                    assert(0 <= a < k + 1 && region_cells(mviews[a]).contains(c));
                } else {
                    assert(mviews[k as int] == m@);
                    assert(region_cells(mviews[k as int]).contains(c));
                }
            }
        }
        k = k + 1;
    }
    proof {
        assert(mviews.subrange(0, merges@.len() as int) =~= mviews);
    }
    Ok(ws)
}

/// Builds the xlsx bytes of one chunk: a workbook whose one sheet is the
/// one `build_chunk_sheet` builds.
pub fn write_chunk(header_rows: &Vec<Vec<String>>, data_rows: &Vec<Vec<String>>, merges: &Vec<
    ChunkMerge,
>) -> (r: Result<Vec<u8>, SplitError>)
    ensures
        r matches Err(e) ==> e == SplitError::WriteError,
        r is Ok ==> rows_fit(header_rows.deep_view(), 0) && rows_fit(
            data_rows.deep_view(),
            header_rows@.len() as int,
        ),
        r is Ok ==> forall|k: int| 0 <= k < merges@.len() ==> merge_fits(#[trigger] merges@[k]@),
        !(rows_fit(header_rows.deep_view(), 0) && rows_fit(
            data_rows.deep_view(),
            header_rows@.len() as int,
        )) ==> r is Err,
{
    let ws = match build_chunk_sheet(header_rows, data_rows, merges) {
        Ok(ws) => ws,
        Err(e) => {
            return Err(e);
        },
    };
    let mut wb = Workbook::new();
    wb.push_worksheet(ws);
    match wb.save_to_buffer() {
        Ok(bytes) => Ok(bytes),
        Err(_) => Err(SplitError::WriteError),
    }
}

} // verus!
