//! What every split satisfies, stated over the split's specification.

use vstd::prelude::*;
use crate::cellref::MergeRange;
use crate::chunk::{
    ChunkMergeView, GridView, PreparedChunkView, cell_at, chunk_count, chunk_merge_of,
    chunk_merges, chunk_row, in_chunk, is_split_of, lemma_plan_bounds, lemma_step_mul, params_valid,
    plan_at,
};

verus! {

/// The text of sheet cell `(row, col)`; empty where there is none.
pub open spec fn cell_of(rows: GridView, row: int, col: int) -> Seq<char> {
    if 0 <= row < rows.len() && 0 <= col < rows[row].len() {
        rows[row][col]
    } else {
        Seq::empty()
    }
}

/// The data rows of each chunk, one after the other.
pub open spec fn all_data(chunks: Seq<PreparedChunkView>) -> GridView {
    chunks.map_values(|c: PreparedChunkView| c.data).flatten()
}

proof fn lemma_suffix_data(
    rows: GridView,
    merges: Seq<MergeRange>,
    chunk_size: nat,
    header_rows: nat,
    chunks: Seq<PreparedChunkView>,
    i: int,
)
    requires
        params_valid(chunk_size, header_rows),
        rows.len() >= header_rows,
        is_split_of(rows, merges, chunk_size, header_rows, chunks),
        0 <= i <= chunks.len(),
    ensures
        ({
            let d = (rows.len() - header_rows) as nat;
            let cap = (chunk_size - header_rows) as nat;
            let from = if i < chunks.len() {
                plan_at(i as nat, d, cap).0
            } else {
                d
            };
            all_data(chunks.subrange(i, chunks.len() as int)) == rows.subrange(
                (header_rows + from) as int,
                rows.len() as int,
            )
        }),
    decreases chunks.len() - i,
{
    let d = (rows.len() - header_rows) as nat;
    let cap = (chunk_size - header_rows) as nat;
    let suffix = chunks.subrange(i, chunks.len() as int);
    if i == chunks.len() {
        assert(suffix.map_values(|c: PreparedChunkView| c.data) =~= Seq::<GridView>::empty());
        assert(rows.subrange((header_rows + d) as int, rows.len() as int) =~= Seq::<Seq<Seq<char>>>::empty());
    } else {
        lemma_suffix_data(rows, merges, chunk_size, header_rows, chunks, i + 1);
        lemma_plan_bounds(i as nat, d, cap);
        let f = |c: PreparedChunkView| c.data;
        let mapped = suffix.map_values(f);
        assert(mapped.drop_first() =~= chunks.subrange(i + 1, chunks.len() as int).map_values(f));
        assert(mapped.first() == chunks[i].data);
        assert(chunks[i] == crate::chunk::expected_chunk(rows, merges, header_rows, cap, i as nat));
        let (s, e) = plan_at(i as nat, d, cap);
        assert(all_data(suffix) == mapped.first() + mapped.drop_first().flatten());
        assert(rows.subrange((header_rows + s) as int, rows.len() as int) =~= rows.subrange(
            (header_rows + s) as int,
            (header_rows + e) as int,
        ) + rows.subrange((header_rows + e) as int, rows.len() as int));
    }
}

/// Row conservation: the data rows of all chunks, concatenated in order,
/// are exactly the sheet's rows after the header.
pub proof fn lemma_row_conservation(
    rows: GridView,
    merges: Seq<MergeRange>,
    chunk_size: nat,
    header_rows: nat,
    chunks: Seq<PreparedChunkView>,
)
    requires
        params_valid(chunk_size, header_rows),
        rows.len() >= header_rows,
        is_split_of(rows, merges, chunk_size, header_rows, chunks),
    ensures
        all_data(chunks) == rows.subrange(header_rows as int, rows.len() as int),
{
    lemma_suffix_data(rows, merges, chunk_size, header_rows, chunks, 0);
    assert(chunks.subrange(0, chunks.len() as int) =~= chunks);
    let d = (rows.len() - header_rows) as nat;
    let cap = (chunk_size - header_rows) as nat;
    if chunks.len() > 0 {
        assert(plan_at(0, d, cap).0 == 0);
    }
}

/// Header replication: every chunk starts with the sheet's header rows.
pub proof fn lemma_header_replication(
    rows: GridView,
    merges: Seq<MergeRange>,
    chunk_size: nat,
    header_rows: nat,
    chunks: Seq<PreparedChunkView>,
)
    requires
        params_valid(chunk_size, header_rows),
        rows.len() >= header_rows,
        is_split_of(rows, merges, chunk_size, header_rows, chunks),
    ensures
        forall|k: int|
            0 <= k < chunks.len() ==> (#[trigger] chunks[k]).header == rows.subrange(
                0,
                header_rows as int,
            ),
{
}

/// Chunk sizing: every chunk but the last holds `chunk_size - header_rows`
/// data rows; the last holds at most that many and at least one, unless
/// the sheet has no data rows, in which case there is one chunk with none.
pub proof fn lemma_chunk_sizing(
    rows: GridView,
    merges: Seq<MergeRange>,
    chunk_size: nat,
    header_rows: nat,
    chunks: Seq<PreparedChunkView>,
)
    requires
        params_valid(chunk_size, header_rows),
        rows.len() >= header_rows,
        is_split_of(rows, merges, chunk_size, header_rows, chunks),
    ensures
        chunks.len() >= 1,
        forall|k: int|
            0 <= k < chunks.len() - 1 ==> (#[trigger] chunks[k]).data.len() == chunk_size
                - header_rows,
        chunks.last().data.len() <= chunk_size - header_rows,
        rows.len() > header_rows ==> chunks.last().data.len() > 0,
        rows.len() == header_rows ==> chunks.len() == 1 && chunks[0].data.len() == 0,
{
    let d = (rows.len() - header_rows) as nat;
    let cap = (chunk_size - header_rows) as nat;
    assert(chunk_count(d, cap) >= 1);
    assert forall|k: int| 0 <= k < chunks.len() - 1 implies (#[trigger] chunks[k]).data.len()
        == chunk_size - header_rows by {
        lemma_plan_bounds(k as nat, d, cap);
    }
    let n = chunks.len() - 1;
    lemma_plan_bounds(n as nat, d, cap);
    lemma_step_mul(n as nat, cap);
}

/// Merge containment for one chunk: a region that `map_chunk_merges`
/// carries into the chunk (both of its rows in the chunk, its coordinates
/// within the writer's index widths) is among the chunk's regions.
pub proof fn lemma_chunk_merges_contains(
    merges: Seq<MergeRange>,
    i: int,
    header_rows: int,
    data_start: int,
    data_end: int,
    header: GridView,
    data: GridView,
)
    requires
        0 <= i < merges.len(),
        chunk_merge_of(merges[i], header_rows, data_start, data_end, header, data) is Some,
    ensures
        chunk_merges(merges, header_rows, data_start, data_end, header, data).contains(
            chunk_merge_of(merges[i], header_rows, data_start, data_end, header, data)->0,
        ),
    decreases merges.len(),
{
    let rest = chunk_merges(merges.drop_last(), header_rows, data_start, data_end, header, data);
    let all = chunk_merges(merges, header_rows, data_start, data_end, header, data);
    let c = chunk_merge_of(merges[i], header_rows, data_start, data_end, header, data)->0;
    if i == merges.len() - 1 {
        assert(all == rest.push(c));
        assert(all[rest.len() as int] == c);
    } else {
        assert(merges.drop_last()[i] == merges[i]);
        lemma_chunk_merges_contains(merges.drop_last(), i, header_rows, data_start, data_end, header, data);
        let j = choose|j: int| 0 <= j < rest.len() && rest[j] == c;
        match chunk_merge_of(merges.last(), header_rows, data_start, data_end, header, data) {
            Some(x) => {
                assert(all == rest.push(x));
                assert(all[j] == c);
            },
            None => {},
        }
    }
}

/// Merge containment: a merged region whose first and last rows both fall
/// in chunk `k` reappears among that chunk's regions, shifted by the
/// chunk's first data row (header rows keep their place), with its columns
/// and the text of its top-left sheet cell.
pub proof fn lemma_merge_kept(
    rows: GridView,
    merges: Seq<MergeRange>,
    chunk_size: nat,
    header_rows: nat,
    chunks: Seq<PreparedChunkView>,
    i: int,
    k: int,
)
    requires
        params_valid(chunk_size, header_rows),
        rows.len() >= header_rows,
        is_split_of(rows, merges, chunk_size, header_rows, chunks),
        0 <= i < merges.len(),
        merges[i].wf(),
        0 <= k < chunks.len(),
        ({
            let (s, e) = plan_at(
                k as nat,
                (rows.len() - header_rows) as nat,
                (chunk_size - header_rows) as nat,
            );
            &&& in_chunk(merges[i].start_row as int, header_rows as int, s as int, e as int)
            &&& in_chunk(merges[i].end_row as int, header_rows as int, s as int, e as int)
            &&& chunk_row(merges[i].end_row as int, header_rows as int, s as int) <= u32::MAX
            &&& merges[i].end_col <= u16::MAX
        }),
    ensures
        ({
            let m = merges[i];
            let s = plan_at(
                k as nat,
                (rows.len() - header_rows) as nat,
                (chunk_size - header_rows) as nat,
            ).0;
            chunks[k].merges.contains(
                ChunkMergeView {
                    start_row: chunk_row(m.start_row as int, header_rows as int, s as int) as u32,
                    end_row: chunk_row(m.end_row as int, header_rows as int, s as int) as u32,
                    start_col: m.start_col as u16,
                    end_col: m.end_col as u16,
                    value: cell_of(rows, m.start_row as int, m.start_col as int),
                },
            )
        }),
{
    let d = (rows.len() - header_rows) as nat;
    let cap = (chunk_size - header_rows) as nat;
    let (s, e) = plan_at(k as nat, d, cap);
    let header = rows.subrange(0, header_rows as int);
    let data = rows.subrange(header_rows as int, rows.len() as int);
    let m = merges[i];
    assert(chunks[k] == crate::chunk::expected_chunk(rows, merges, header_rows, cap, k as nat));
    lemma_chunk_merges_contains(merges, i, header_rows as int, s as int, e as int, header, data);
    assert(cell_at(header, data, header_rows as int, m.start_row as int, m.start_col as int)
        == cell_of(rows, m.start_row as int, m.start_col as int));
}

proof fn lemma_slices_disjoint(a: nat, b: nat, d: nat, cap: nat, x: nat)
    requires
        cap > 0,
        a < chunk_count(d, cap),
        b < chunk_count(d, cap),
        plan_at(a, d, cap).0 <= x < plan_at(a, d, cap).1,
        plan_at(b, d, cap).0 <= x < plan_at(b, d, cap).1,
    ensures
        a == b,
{
    lemma_plan_bounds(a, d, cap);
    lemma_plan_bounds(b, d, cap);
    if a < b {
        vstd::arithmetic::mul::lemma_mul_inequality((a + 1) as int, b as int, cap as int);
    } else if b < a {
        vstd::arithmetic::mul::lemma_mul_inequality((b + 1) as int, a as int, cap as int);
    }
}

/// Merge containment, the other side: a merged region whose first row is
/// a data row of chunk `i` and whose last row is a data row of another
/// chunk `j` is carried into no chunk.
pub proof fn lemma_merge_across_chunks_dropped(
    rows: GridView,
    merges: Seq<MergeRange>,
    chunk_size: nat,
    header_rows: nat,
    chunks: Seq<PreparedChunkView>,
    m: MergeRange,
    i: int,
    j: int,
)
    requires
        params_valid(chunk_size, header_rows),
        rows.len() >= header_rows,
        is_split_of(rows, merges, chunk_size, header_rows, chunks),
        0 <= i < chunks.len(),
        0 <= j < chunks.len(),
        i != j,
        m.start_row >= header_rows,
        m.end_row >= header_rows,
        ({
            let d = (rows.len() - header_rows) as nat;
            let cap = (chunk_size - header_rows) as nat;
            &&& plan_at(i as nat, d, cap).0 <= m.start_row - header_rows < plan_at(i as nat, d, cap).1
            &&& plan_at(j as nat, d, cap).0 <= m.end_row - header_rows < plan_at(j as nat, d, cap).1
        }),
    ensures
        forall|k: int|
            0 <= k < chunks.len() ==> chunk_merge_of(
                m,
                header_rows as int,
                plan_at(
                    k as nat,
                    (rows.len() - header_rows) as nat,
                    (chunk_size - header_rows) as nat,
                ).0 as int,
                #[trigger] plan_at(
                    k as nat,
                    (rows.len() - header_rows) as nat,
                    (chunk_size - header_rows) as nat,
                ).1 as int,
                rows.subrange(0, header_rows as int),
                rows.subrange(header_rows as int, rows.len() as int),
            ) is None,
{
    let d = (rows.len() - header_rows) as nat;
    let cap = (chunk_size - header_rows) as nat;
    assert forall|k: int| 0 <= k < chunks.len() implies chunk_merge_of(
        m,
        header_rows as int,
        plan_at(k as nat, d, cap).0 as int,
        #[trigger] plan_at(k as nat, d, cap).1 as int,
        rows.subrange(0, header_rows as int),
        rows.subrange(header_rows as int, rows.len() as int),
    ) is None by {
        let (s, e) = plan_at(k as nat, d, cap);
        if in_chunk(m.start_row as int, header_rows as int, s as int, e as int) && in_chunk(
            m.end_row as int,
            header_rows as int,
            s as int,
            e as int,
        ) {
            lemma_slices_disjoint(k as nat, i as nat, d, cap, (m.start_row - header_rows) as nat);
            lemma_slices_disjoint(k as nat, j as nat, d, cap, (m.end_row - header_rows) as nat);
        }
    }
}

} // verus!
