//! Partitioning rows into header + data chunks, and carrying merged
//! regions over into each chunk's own coordinates.

use vstd::prelude::*;
use crate::cellref::MergeRange;

verus! {

/// Rows of text cells, as the spreadsheet model sees them.
pub type GridView = Seq<Seq<Seq<char>>>;

/// Why a split was refused or failed.
#[derive(Debug, PartialEq, Eq)]
pub enum SplitError {
    /// A zero chunk size or header row count, or a chunk size that leaves no
    /// room for data rows.
    InvalidParameter,
    /// The source file could not be opened or parsed.
    SourceOpenError(String),
    /// The workbook has no sheet.
    NoSheetError,
    /// The first sheet's cells could not be read.
    SheetReadError(String),
    /// The sheet has fewer rows than the requested header rows.
    RowCountBelowHeader,
    /// An entry that the container must hold is missing; its name.
    ContainerEntryMissing(String),
    /// A descriptor part of the container could not be parsed.
    MalformedContainer,
    /// The sheet's part could not be found through the relationship parts;
    /// the sheet name or relationship id that was looked for.
    RelationshipNotFound(String),
    /// An output file could not be built or written.
    WriteError,
}

/// One output chunk: a half-open slice `[data_start, data_end)` of the data
/// rows (the rows after the header), and its one-based index.
#[derive(Clone, Copy, Debug, PartialEq, Eq)]
pub struct ChunkPlan {
    pub index: usize,
    pub data_start: usize,
    pub data_end: usize,
}

/// A merged region in one chunk's coordinates, with the text of its
/// top-left cell.
pub struct ChunkMerge {
    pub start_row: u32,
    pub end_row: u32,
    pub start_col: u16,
    pub end_col: u16,
    pub value: String,
}

pub struct ChunkMergeView {
    pub start_row: u32,
    pub end_row: u32,
    pub start_col: u16,
    pub end_col: u16,
    pub value: Seq<char>,
}

impl View for ChunkMerge {
    type V = ChunkMergeView;

    open spec fn view(&self) -> ChunkMergeView {
        ChunkMergeView {
            start_row: self.start_row,
            end_row: self.end_row,
            start_col: self.start_col,
            end_col: self.end_col,
            value: self.value@,
        }
    }
}

/// The parameters are usable: room for at least one data row per chunk.
pub open spec fn params_valid(chunk_size: nat, header_rows: nat) -> bool {
    chunk_size > 0 && header_rows > 0 && chunk_size > header_rows
}

/// How many chunks `data_rows` data rows make with `capacity` data rows
/// per chunk: one for no data rows, else as many as the rows fill.
pub open spec fn chunk_count(data_rows: nat, capacity: nat) -> nat
    decreases data_rows,
{
    if data_rows <= capacity || capacity == 0 {
        1
    } else {
        1 + chunk_count((data_rows - capacity) as nat, capacity)
    }
}

/// The `k`-th (zero-based) chunk over `data_rows` data rows.
pub open spec fn plan_at(k: nat, data_rows: nat, capacity: nat) -> (nat, nat) {
    let start = k * capacity;
    let end = if (k + 1) * capacity <= data_rows {
        (k + 1) * capacity
    } else {
        data_rows
    };
    (start, end)
}

pub open spec fn plan_matches(p: ChunkPlan, k: nat, data_rows: nat, capacity: nat) -> bool {
    p.index == k + 1 && p.data_start == plan_at(k, data_rows, capacity).0 && p.data_end
        == plan_at(k, data_rows, capacity).1
}

/// `(k + 1) * capacity` is one `capacity` more than `k * capacity`.
pub proof fn lemma_step_mul(k: nat, capacity: nat)
    ensures
        (k + 1) * capacity == k * capacity + capacity,
{
    assert((k + 1) * capacity == k * capacity + capacity) by (nonlinear_arith);
}

/// Plans the chunks of a sheet with `total_rows` rows.
pub fn plan_chunks(total_rows: usize, header_rows: usize, chunk_size: usize) -> (r: Result<
    Vec<ChunkPlan>,
    SplitError,
>)
    ensures
        !params_valid(chunk_size as nat, header_rows as nat) <==> r matches Err(
            SplitError::InvalidParameter,
        ),
        params_valid(chunk_size as nat, header_rows as nat) && total_rows < header_rows <==> r matches Err(
            SplitError::RowCountBelowHeader,
        ),
        r is Ok <==> params_valid(chunk_size as nat, header_rows as nat) && total_rows
            >= header_rows,
        r matches Ok(v) ==> {
            let d = (total_rows - header_rows) as nat;
            let cap = (chunk_size - header_rows) as nat;
            &&& v@.len() == chunk_count(d, cap)
            &&& forall|k: int| 0 <= k < v@.len() ==> plan_matches(#[trigger] v@[k], k as nat, d, cap)
        },
{
    if chunk_size == 0 || header_rows == 0 || chunk_size <= header_rows {
        return Err(SplitError::InvalidParameter);
    }
    if total_rows < header_rows {
        return Err(SplitError::RowCountBelowHeader);
    }
    let d = total_rows - header_rows;
    let cap = chunk_size - header_rows;
    let mut plans: Vec<ChunkPlan> = Vec::new();
    if d == 0 {
        plans.push(ChunkPlan { index: 1, data_start: 0, data_end: 0 });
        proof {
            assert(plan_at(0, 0, cap as nat) == (0nat, 0nat));
        }
        return Ok(plans);
    }
    let mut start: usize = 0;
    while start < d
        invariant
            0 < cap,
            0 < d,
            start <= d,
            plans@.len() <= start,
            start < d ==> start as nat == plans@.len() as nat * cap as nat,
            start < d ==> plans@.len() + chunk_count((d - start) as nat, cap as nat) == chunk_count(
                d as nat,
                cap as nat,
            ),
            start == d ==> plans@.len() == chunk_count(d as nat, cap as nat),
            forall|k: int|
                0 <= k < plans@.len() ==> plan_matches(
                    #[trigger] plans@[k],
                    k as nat,
                    d as nat,
                    cap as nat,
                ),
        decreases d - start,
    {
        let ghost k = plans@.len() as nat;
        let end = if d - start <= cap {
            d
        } else {
            start + cap
        };
        proof {
            lemma_step_mul(k, cap as nat);
        }
        assert(k <= k * cap) by (nonlinear_arith)
            requires
                cap >= 1,
        ;
        plans.push(ChunkPlan { index: plans.len() + 1, data_start: start, data_end: end });
        start = end;
        proof {
            if start < d {
                assert(chunk_count((d - (start - cap)) as nat, cap as nat) == 1 + chunk_count(
                    (d - start) as nat,
                    cap as nat,
                ));
            }
        }
    }
    Ok(plans)
}

/// Sheet row `row` is written into the chunk whose data slice is
/// `[data_start, data_end)`: a header row always is.
pub open spec fn in_chunk(row: int, header_rows: int, data_start: int, data_end: int) -> bool {
    row < header_rows || (data_start <= row - header_rows < data_end)
}

/// The row in the chunk that sheet row `row` becomes.
pub open spec fn chunk_row(row: int, header_rows: int, data_start: int) -> int {
    if row < header_rows {
        row
    } else {
        row - data_start
    }
}

/// The text at `(row, col)` of the sheet given as header and data rows;
/// empty where there is no such cell.
pub open spec fn cell_at(header: GridView, data: GridView, header_rows: int, row: int, col: int) -> Seq<
    char,
> {
    if row < header_rows {
        if row < header.len() && col < header[row].len() {
            header[row][col]
        } else {
            Seq::empty()
        }
    } else {
        let i = row - header_rows;
        if i < data.len() && col < data[i].len() {
            data[i][col]
        } else {
            Seq::empty()
        }
    }
}

/// What a merged region becomes in a chunk: present where both its first
/// and last rows are in the chunk and its coordinates fit the writer's
/// row (`u32`) and column (`u16`) indices.
pub open spec fn chunk_merge_of(
    m: MergeRange,
    header_rows: int,
    data_start: int,
    data_end: int,
    header: GridView,
    data: GridView,
) -> Option<ChunkMergeView> {
    let sr = chunk_row(m.start_row as int, header_rows, data_start);
    let er = chunk_row(m.end_row as int, header_rows, data_start);
    if in_chunk(m.start_row as int, header_rows, data_start, data_end) && in_chunk(
        m.end_row as int,
        header_rows,
        data_start,
        data_end,
    ) && sr <= u32::MAX && er <= u32::MAX && m.start_col <= u16::MAX && m.end_col <= u16::MAX {
        Some(
            ChunkMergeView {
                start_row: sr as u32,
                end_row: er as u32,
                start_col: m.start_col as u16,
                end_col: m.end_col as u16,
                value: cell_at(header, data, header_rows, m.start_row as int, m.start_col as int),
            },
        )
    } else {
        None
    }
}

/// The merged regions of a chunk, in the order of the sheet's regions.
pub open spec fn chunk_merges(
    merges: Seq<MergeRange>,
    header_rows: int,
    data_start: int,
    data_end: int,
    header: GridView,
    data: GridView,
) -> Seq<ChunkMergeView>
    decreases merges.len(),
{
    if merges.len() == 0 {
        Seq::empty()
    } else {
        let rest = chunk_merges(merges.drop_last(), header_rows, data_start, data_end, header, data);
        match chunk_merge_of(merges.last(), header_rows, data_start, data_end, header, data) {
            Some(c) => rest.push(c),
            None => rest,
        }
    }
}

/// Whether sheet row `row` is written into the chunk `[data_start, data_end)`.
pub fn row_in_chunk(row: usize, header_rows: usize, data_start: usize, data_end: usize) -> (r: bool)
    ensures
        r == in_chunk(row as int, header_rows as int, data_start as int, data_end as int),
{
    if row < header_rows {
        true
    } else {
        let data_idx = row - header_rows;
        data_idx >= data_start && data_idx < data_end
    }
}

/// The chunk row that sheet row `row` becomes.
pub fn map_row_to_chunk(row: usize, header_rows: usize, data_start: usize) -> (r: usize)
    requires
        row < header_rows || row - header_rows >= data_start,
    ensures
        r == chunk_row(row as int, header_rows as int, data_start as int),
{
    if row < header_rows {
        row
    } else {
        header_rows + (row - header_rows - data_start)
    }
}

/// The text at `(row, col)` of the sheet given as header and data rows;
/// empty where there is no such cell.
pub fn get_cell_value(
    header_rows: &Vec<Vec<String>>,
    data_rows: &Vec<Vec<String>>,
    header_len: usize,
    row: usize,
    col: usize,
) -> (r: String)
    ensures
        r@ == cell_at(
            header_rows.deep_view(),
            data_rows.deep_view(),
            header_len as int,
            row as int,
            col as int,
        ),
{
    if row < header_len {
        if row < header_rows.len() && col < header_rows[row].len() {
            header_rows[row][col].clone()
        } else {
            String::new()
        }
    } else {
        let data_idx = row - header_len;
        if data_idx < data_rows.len() && col < data_rows[data_idx].len() {
            data_rows[data_idx][col].clone()
        } else {
            String::new()
        }
    }
}

/// The merged regions that fall wholly inside the chunk
/// `[data_start, data_end)`, in chunk coordinates, each with the text of
/// its top-left cell; a region that crosses the chunk's edge is left out.
pub fn map_chunk_merges(
    merges: &Vec<MergeRange>,
    header_rows: usize,
    data_start: usize,
    data_end: usize,
    header_data: &Vec<Vec<String>>,
    data_data: &Vec<Vec<String>>,
) -> (r: Vec<ChunkMerge>)
    ensures
        r@.map_values(|c: ChunkMerge| c@) == chunk_merges(
            merges@,
            header_rows as int,
            data_start as int,
            data_end as int,
            header_data.deep_view(),
            data_data.deep_view(),
        ),
{
    let mut result: Vec<ChunkMerge> = Vec::new();
    let mut i: usize = 0;
    while i < merges.len()
        invariant
            i <= merges@.len(),
            result@.map_values(|c: ChunkMerge| c@) == chunk_merges(
                merges@.subrange(0, i as int),
                header_rows as int,
                data_start as int,
                data_end as int,
                header_data.deep_view(),
                data_data.deep_view(),
            ),
        decreases merges@.len() - i,
    {
        let merge = merges[i];
        let ghost before = result@.map_values(|c: ChunkMerge| c@);
        assert(merges@.subrange(0, i + 1).drop_last() =~= merges@.subrange(0, i as int));
        assert(merges@.subrange(0, i + 1).last() == merge);
        i = i + 1;
        if !row_in_chunk(merge.start_row, header_rows, data_start, data_end) || !row_in_chunk(
            merge.end_row,
            header_rows,
            data_start,
            data_end,
        ) {
            continue;
        }
        let start_row = map_row_to_chunk(merge.start_row, header_rows, data_start);
        let end_row = map_row_to_chunk(merge.end_row, header_rows, data_start);
        if start_row > u32::MAX as usize || end_row > u32::MAX as usize
            || merge.start_col > u16::MAX as usize || merge.end_col > u16::MAX as usize {
            continue;
        }
        let value = get_cell_value(header_data, data_data, header_rows, merge.start_row, merge.start_col);
        result.push(
            ChunkMerge {
                start_row: start_row as u32,
                end_row: end_row as u32,
                start_col: merge.start_col as u16,
                end_col: merge.end_col as u16,
                value,
            },
        );
        assert(result@.map_values(|c: ChunkMerge| c@) =~= before.push(result@.last()@));
    }
    assert(merges@.subrange(0, i as int) =~= merges@);
    result
}

/// One output chunk, ready to be written: the header rows, its data rows,
/// and its merged regions in chunk coordinates.
pub struct PreparedChunk {
    pub index: usize,
    pub header: Vec<Vec<String>>,
    pub data: Vec<Vec<String>>,
    pub merges: Vec<ChunkMerge>,
}

pub struct PreparedChunkView {
    pub index: usize,
    pub header: GridView,
    pub data: GridView,
    pub merges: Seq<ChunkMergeView>,
}

impl View for PreparedChunk {
    type V = PreparedChunkView;

    open spec fn view(&self) -> PreparedChunkView {
        PreparedChunkView {
            index: self.index,
            header: self.header.deep_view(),
            data: self.data.deep_view(),
            merges: self.merges@.map_values(|c: ChunkMerge| c@),
        }
    }
}

/// The `k`-th (zero-based) chunk of a split of `rows`.
pub open spec fn expected_chunk(
    rows: GridView,
    merges: Seq<MergeRange>,
    header_rows: nat,
    capacity: nat,
    k: nat,
) -> PreparedChunkView {
    let d = (rows.len() - header_rows) as nat;
    let (s, e) = plan_at(k, d, capacity);
    let header = rows.subrange(0, header_rows as int);
    PreparedChunkView {
        index: (k + 1) as usize,
        header,
        data: rows.subrange((header_rows + s) as int, (header_rows + e) as int),
        merges: chunk_merges(
            merges,
            header_rows as int,
            s as int,
            e as int,
            header,
            rows.subrange(header_rows as int, rows.len() as int),
        ),
    }
}

/// `chunks` is the split of `rows` with the given parameters.
pub open spec fn is_split_of(
    rows: GridView,
    merges: Seq<MergeRange>,
    chunk_size: nat,
    header_rows: nat,
    chunks: Seq<PreparedChunkView>,
) -> bool {
    let capacity = (chunk_size - header_rows) as nat;
    let d = (rows.len() - header_rows) as nat;
    &&& chunks.len() == chunk_count(d, capacity)
    &&& forall|k: int|
        0 <= k < chunks.len() ==> #[trigger] chunks[k] == expected_chunk(
            rows,
            merges,
            header_rows,
            capacity,
            k as nat,
        )
}

proof fn lemma_chunk_count(d: nat, capacity: nat)
    requires
        capacity > 0,
        d > 0,
    ensures
        chunk_count(d, capacity) >= 1,
        (chunk_count(d, capacity) - 1) * capacity < d,
        d <= chunk_count(d, capacity) * capacity,
    decreases d,
{
    if d > capacity {
        let c = chunk_count((d - capacity) as nat, capacity);
        lemma_chunk_count((d - capacity) as nat, capacity);
        lemma_step_mul((c - 1) as nat, capacity);
        lemma_step_mul(c, capacity);
    }
}

/// Bounds of the `k`-th chunk's data slice.
pub proof fn lemma_plan_bounds(k: nat, d: nat, capacity: nat)
    requires
        capacity > 0,
        k < chunk_count(d, capacity),
    ensures
        plan_at(k, d, capacity).0 <= plan_at(k, d, capacity).1 <= d,
        d > 0 ==> plan_at(k, d, capacity).0 < plan_at(k, d, capacity).1,
        k + 1 < chunk_count(d, capacity) ==> plan_at(k, d, capacity).1 == plan_at(
            (k + 1) as nat,
            d,
            capacity,
        ).0 && plan_at(k, d, capacity).1 - plan_at(k, d, capacity).0 == capacity,
        k + 1 == chunk_count(d, capacity) ==> plan_at(k, d, capacity).1 == d,
        plan_at(k, d, capacity).1 <= (k + 1) * capacity,
{
    lemma_step_mul(k, capacity);
    if d == 0 {
        assert(chunk_count(d, capacity) == 1);
    } else {
        let n = chunk_count(d, capacity);
        lemma_chunk_count(d, capacity);
        vstd::arithmetic::mul::lemma_mul_inequality(k as int, (n - 1) as int, capacity as int);
        if k + 1 < n {
            vstd::arithmetic::mul::lemma_mul_inequality(
                (k + 1) as int,
                (n - 1) as int,
                capacity as int,
            );
        }
    }
}

fn clone_row(row: &Vec<String>) -> (r: Vec<String>)
    ensures
        r.deep_view() == row.deep_view(),
{
    let mut out: Vec<String> = Vec::new();
    let mut j: usize = 0;
    while j < row.len()
        invariant
            j <= row@.len(),
            out@.len() == j,
            forall|k: int| 0 <= k < j ==> (#[trigger] out@[k])@ == row@[k]@,
        decreases row@.len() - j,
    {
        out.push(row[j].clone());
        j = j + 1;
    }
    assert(out.deep_view() =~= row.deep_view());
    out
}

fn clone_rows(rows: &Vec<Vec<String>>, from: usize, to: usize) -> (r: Vec<Vec<String>>)
    requires
        from <= to <= rows@.len(),
    ensures
        r.deep_view() == rows.deep_view().subrange(from as int, to as int),
{
    let mut out: Vec<Vec<String>> = Vec::new();
    let mut j: usize = from;
    while j < to
        invariant
            from <= j <= to <= rows@.len(),
            out@.len() == j - from,
            forall|k: int| 0 <= k < j - from ==> (#[trigger] out@[k]).deep_view() == rows@[from + k].deep_view(),
        decreases to - j,
    {
        out.push(clone_row(&rows[j]));
        j = j + 1;
    }
    assert(out.deep_view() =~= rows.deep_view().subrange(from as int, to as int));
    out
}

/// Splits a sheet's rows into chunks of at most `chunk_size` rows, each
/// repeating the first `header_rows` rows, with the merged regions that
/// lie wholly inside each chunk carried into its coordinates.
pub fn split_sheet(
    rows: &Vec<Vec<String>>,
    merges: &Vec<MergeRange>,
    chunk_size: usize,
    header_rows: usize,
) -> (r: Result<Vec<PreparedChunk>, SplitError>)
    ensures
        !params_valid(chunk_size as nat, header_rows as nat) <==> r matches Err(
            SplitError::InvalidParameter,
        ),
        params_valid(chunk_size as nat, header_rows as nat) && rows@.len() < header_rows <==> r matches Err(
            SplitError::RowCountBelowHeader,
        ),
        r is Ok <==> params_valid(chunk_size as nat, header_rows as nat) && rows@.len()
            >= header_rows,
        r matches Ok(v) ==> is_split_of(
            rows.deep_view(),
            merges@,
            chunk_size as nat,
            header_rows as nat,
            v@.map_values(|c: PreparedChunk| c@),
        ),
{
    let plans = match plan_chunks(rows.len(), header_rows, chunk_size) {
        Ok(p) => p,
        Err(e) => {
            return Err(e);
        },
    };
    let ghost g = rows.deep_view();
    let ghost d = (rows@.len() - header_rows) as nat;
    let ghost cap = (chunk_size - header_rows) as nat;
    let header = clone_rows(rows, 0, header_rows);
    let data_all = clone_rows(rows, header_rows, rows.len());
    let mut chunks: Vec<PreparedChunk> = Vec::new();
    let total = rows.len();
    let mut k: usize = 0;
    while k < plans.len()
        invariant
            total == rows@.len(),
            params_valid(chunk_size as nat, header_rows as nat),
            rows@.len() >= header_rows,
            g == rows.deep_view(),
            d == rows@.len() - header_rows,
            cap == chunk_size - header_rows,
            plans@.len() == chunk_count(d, cap),
            forall|j: int| 0 <= j < plans@.len() ==> plan_matches(#[trigger] plans@[j], j as nat, d, cap),
            header.deep_view() == g.subrange(0, header_rows as int),
            data_all.deep_view() == g.subrange(header_rows as int, g.len() as int),
            k <= plans@.len(),
            chunks@.len() == k,
            forall|j: int|
                0 <= j < k ==> (#[trigger] chunks@[j])@ == expected_chunk(
                    g,
                    merges@,
                    header_rows as nat,
                    cap,
                    j as nat,
                ),
        decreases plans@.len() - k,
    {
        let plan = plans[k];
        assert(plan_matches(plans@[k as int], k as nat, d, cap));
        proof {
            lemma_plan_bounds(k as nat, d, cap);
            assert(plan.data_start as nat == plan_at(k as nat, d, cap).0);
            assert(plan.data_end as nat == plan_at(k as nat, d, cap).1);
            assert(plan.data_end <= d);
        }
        let data = clone_rows(rows, header_rows + plan.data_start, header_rows + plan.data_end);
        let chunk_merges = map_chunk_merges(
            merges,
            header_rows,
            plan.data_start,
            plan.data_end,
            &header,
            &data_all,
        );
        let cloned_header = clone_rows(rows, 0, header_rows);
        chunks.push(PreparedChunk { index: plan.index, header: cloned_header, data, merges: chunk_merges });
        k = k + 1;
    }
    assert(chunks@.map_values(|c: PreparedChunk| c@).len() == chunks@.len());
    Ok(chunks)
}

} // verus!
