use excel_helper::{
    ChunkPlan, MergeRange, SplitError, get_cell_value, map_chunk_merges, map_row_to_chunk,
    plan_chunks, row_in_chunk, split_sheet,
};

fn grid(header: usize, data: usize) -> Vec<Vec<String>> {
    let mut rows = Vec::new();
    for i in 0..header {
        rows.push(vec![format!("h{i}"), format!("H{i}")]);
    }
    for i in 0..data {
        rows.push(vec![format!("d{i}"), format!("{}", i * 2)]);
    }
    rows
}

#[test]
fn chunk_size_equal_to_header_is_invalid() {
    assert!(matches!(plan_chunks(10, 3, 3), Err(SplitError::InvalidParameter)));
    let rows = grid(3, 5);
    assert!(matches!(split_sheet(&rows, &Vec::new(), 3, 3), Err(SplitError::InvalidParameter)));
}

#[test]
fn zero_header_rows_is_invalid() {
    assert!(matches!(plan_chunks(10, 0, 5), Err(SplitError::InvalidParameter)));
    let rows = grid(3, 5);
    assert!(matches!(split_sheet(&rows, &Vec::new(), 5, 0), Err(SplitError::InvalidParameter)));
}

#[test]
fn zero_chunk_size_is_invalid() {
    assert!(matches!(plan_chunks(10, 1, 0), Err(SplitError::InvalidParameter)));
}

#[test]
fn fewer_rows_than_header_is_refused() {
    assert!(matches!(plan_chunks(2, 3, 10), Err(SplitError::RowCountBelowHeader)));
    let rows = grid(2, 0);
    assert!(matches!(split_sheet(&rows, &Vec::new(), 10, 3), Err(SplitError::RowCountBelowHeader)));
}

#[test]
fn large_sheet_splits_into_three_chunks() {
    let plans = plan_chunks(3 + 1203, 3, 500).ok().unwrap();
    assert_eq!(
        plans,
        vec![
            ChunkPlan { index: 1, data_start: 0, data_end: 497 },
            ChunkPlan { index: 2, data_start: 497, data_end: 994 },
            ChunkPlan { index: 3, data_start: 994, data_end: 1203 },
        ]
    );
    let rows = grid(3, 1203);
    let chunks = split_sheet(&rows, &Vec::new(), 500, 3).ok().unwrap();
    let data: Vec<usize> = chunks.iter().map(|c| c.data.len()).collect();
    let total: Vec<usize> = chunks.iter().map(|c| c.header.len() + c.data.len()).collect();
    assert_eq!(data, vec![497, 497, 209]);
    assert_eq!(total, vec![500, 500, 212]);
}

#[test]
fn header_only_sheet_gives_one_chunk() {
    let rows = grid(2, 0);
    let chunks = split_sheet(&rows, &Vec::new(), 10, 2).ok().unwrap();
    assert_eq!(chunks.len(), 1);
    assert_eq!(chunks[0].index, 1);
    assert_eq!(chunks[0].header.len() + chunks[0].data.len(), 2);
    assert_eq!(chunks[0].data.len(), 0);
}

#[test]
fn data_rows_are_conserved_and_headers_repeated() {
    let rows = grid(2, 23);
    let chunks = split_sheet(&rows, &Vec::new(), 7, 2).ok().unwrap();
    assert_eq!(chunks.len(), 5);
    let mut joined: Vec<Vec<String>> = Vec::new();
    for (k, c) in chunks.iter().enumerate() {
        assert_eq!(c.index, k + 1);
        assert_eq!(c.header, rows[..2].to_vec());
        joined.extend(c.data.iter().cloned());
    }
    assert_eq!(joined, rows[2..].to_vec());
    let sizes: Vec<usize> = chunks.iter().map(|c| c.data.len()).collect();
    assert_eq!(sizes, vec![5, 5, 5, 5, 3]);
}

#[test]
fn exact_multiple_has_full_last_chunk() {
    let rows = grid(1, 10);
    let chunks = split_sheet(&rows, &Vec::new(), 6, 1).ok().unwrap();
    let sizes: Vec<usize> = chunks.iter().map(|c| c.data.len()).collect();
    assert_eq!(sizes, vec![5, 5]);
}

#[test]
fn rows_map_into_chunks() {
    assert!(row_in_chunk(0, 2, 10, 20));
    assert!(row_in_chunk(12, 2, 10, 20));
    assert!(!row_in_chunk(11, 2, 10, 20));
    assert!(!row_in_chunk(22, 2, 10, 20));
    assert_eq!(map_row_to_chunk(1, 2, 10), 1);
    assert_eq!(map_row_to_chunk(12, 2, 10), 2);
    assert_eq!(map_row_to_chunk(21, 2, 10), 11);
}

#[test]
fn cell_values_come_from_header_or_data() {
    let header = vec![vec!["a".to_string(), "b".to_string()]];
    let data = vec![vec!["c".to_string()], vec!["d".to_string(), "e".to_string()]];
    assert_eq!(get_cell_value(&header, &data, 1, 0, 1), "b");
    assert_eq!(get_cell_value(&header, &data, 1, 2, 1), "e");
    assert_eq!(get_cell_value(&header, &data, 1, 1, 1), "");
    assert_eq!(get_cell_value(&header, &data, 1, 9, 0), "");
}

#[test]
fn contained_merge_is_shifted_and_spanning_merge_dropped() {
    let rows = grid(2, 10);
    let merges = vec![
        // Header merge: kept in every chunk.
        MergeRange { start_row: 0, end_row: 1, start_col: 0, end_col: 1 },
        // Data rows 5..=6 (sheet rows 7..=8): inside the second chunk.
        MergeRange { start_row: 7, end_row: 8, start_col: 0, end_col: 1 },
        // Data rows 3..=4 (sheet rows 5..=6): across the first two chunks.
        MergeRange { start_row: 5, end_row: 6, start_col: 1, end_col: 1 },
    ];
    let chunks = split_sheet(&rows, &merges, 6, 2).ok().unwrap();
    assert_eq!(chunks.len(), 3);
    assert_eq!(chunks[0].merges.len(), 1);
    assert_eq!(chunks[2].merges.len(), 1);
    let second = &chunks[1].merges;
    assert_eq!(second.len(), 2);
    assert_eq!((second[0].start_row, second[0].end_row), (0, 1));
    assert_eq!(second[0].value, "h0");
    assert_eq!(
        (second[1].start_row, second[1].end_row, second[1].start_col, second[1].end_col),
        (3, 4, 0, 1)
    );
    assert_eq!(second[1].value, "d5");
}

#[test]
fn merge_beyond_writer_columns_is_dropped() {
    let header = vec![vec!["a".to_string()]];
    let data: Vec<Vec<String>> = vec![vec!["b".to_string()]];
    let merges = vec![MergeRange { start_row: 0, end_row: 1, start_col: 0, end_col: 70000 }];
    assert_eq!(map_chunk_merges(&merges, 1, 0, 1, &header, &data).len(), 0);
    let narrow = vec![MergeRange { start_row: 0, end_row: 1, start_col: 0, end_col: 3 }];
    let kept = map_chunk_merges(&narrow, 1, 0, 1, &header, &data);
    assert_eq!(kept.len(), 1);
    assert_eq!(kept[0].value, "a");
}

#[test]
fn workbook_split_reports_rows_and_names() {
    let rows = grid(3, 1203);
    let files = excel_helper::split_workbook(&rows, &Vec::new(), 500, 3, Some("big")).ok().unwrap();
    let data: Vec<usize> = files.iter().map(|f| f.data_rows).collect();
    let total: Vec<usize> = files.iter().map(|f| f.total_rows).collect();
    let names: Vec<&str> = files.iter().map(|f| f.name.as_str()).collect();
    assert_eq!(data, vec![497, 497, 209]);
    assert_eq!(total, vec![500, 500, 212]);
    assert_eq!(names, vec!["big_part1.xlsx", "big_part2.xlsx", "big_part3.xlsx"]);
    assert!(files.iter().all(|f| f.bytes.starts_with(b"PK")));
}

#[test]
fn header_only_workbook_split_gives_one_file() {
    let rows = grid(2, 0);
    let files = excel_helper::split_workbook(&rows, &Vec::new(), 10, 2, None).ok().unwrap();
    assert_eq!(files.len(), 1);
    assert_eq!(files[0].total_rows, 2);
    assert_eq!(files[0].data_rows, 0);
    assert_eq!(files[0].name, "split_part1.xlsx");
}

#[test]
fn workbook_split_refuses_bad_parameters() {
    let rows = grid(2, 4);
    assert!(matches!(
        excel_helper::split_workbook(&rows, &Vec::new(), 2, 2, None),
        Err(SplitError::InvalidParameter)
    ));
    assert!(matches!(
        excel_helper::split_workbook(&rows, &Vec::new(), 10, 7, None),
        Err(SplitError::RowCountBelowHeader)
    ));
}

#[test]
fn single_cell_merge_fails_the_workbook_split() {
    let rows = grid(1, 2);
    let merges = vec![MergeRange { start_row: 0, end_row: 0, start_col: 0, end_col: 0 }];
    assert!(matches!(
        excel_helper::split_workbook(&rows, &merges, 5, 1, None),
        Err(SplitError::WriteError)
    ));
}

#[test]
fn summary_reports_source_rows_and_files() {
    let rows = grid(3, 1203);
    let files = excel_helper::split_workbook(&rows, &Vec::new(), 500, 3, Some("big")).ok().unwrap();
    let paths: Vec<String> = files.iter().map(|f| format!("/out/{}", f.name)).collect();
    let summary = excel_helper::summarize(&rows, 3, &files, &paths);
    assert_eq!(summary.total_rows, 1206);
    assert_eq!(summary.header_rows, 3);
    let data: Vec<usize> = summary.chunks.iter().map(|c| c.data_rows).collect();
    let total: Vec<usize> = summary.chunks.iter().map(|c| c.total_rows).collect();
    assert_eq!(data, vec![497, 497, 209]);
    assert_eq!(total, vec![500, 500, 212]);
    assert_eq!(summary.chunks[2].file_path, "/out/big_part3.xlsx");
}
