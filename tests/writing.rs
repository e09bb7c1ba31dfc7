use excel_helper::{ChunkMerge, SplitError, write_chunk};

fn rows(v: &[&[&str]]) -> Vec<Vec<String>> {
    v.iter().map(|r| r.iter().map(|s| s.to_string()).collect()).collect()
}

#[test]
fn chunk_is_written_as_xlsx_bytes() {
    let header = rows(&[&["name", "value"]]);
    let data = rows(&[&["a", "1"], &["b", ""]]);
    let merges = vec![ChunkMerge { start_row: 1, end_row: 2, start_col: 0, end_col: 0, value: "a".to_string() }];
    let bytes = write_chunk(&header, &data, &merges).ok().unwrap();
    assert!(bytes.len() > 4);
    assert_eq!(&bytes[..2], b"PK");
}

#[test]
fn single_cell_merge_is_a_write_error() {
    let header = rows(&[&["h"]]);
    let merges = vec![ChunkMerge { start_row: 0, end_row: 0, start_col: 0, end_col: 0, value: "h".to_string() }];
    assert!(matches!(write_chunk(&header, &Vec::new(), &merges), Err(SplitError::WriteError)));
}

#[test]
fn overlong_cell_is_a_write_error() {
    let long = "x".repeat(32768);
    let header = vec![vec![long]];
    assert!(matches!(write_chunk(&header, &Vec::new(), &Vec::new()), Err(SplitError::WriteError)));
}

#[test]
fn cell_beyond_last_column_is_a_write_error() {
    let mut row = vec![String::new(); 16384];
    row.push("x".to_string());
    let header = vec![row];
    assert!(matches!(write_chunk(&header, &Vec::new(), &Vec::new()), Err(SplitError::WriteError)));
    let empty_tail = vec![vec![String::new(); 16390]];
    assert!(write_chunk(&empty_tail, &Vec::new(), &Vec::new()).is_ok());
}

#[test]
fn disjoint_merges_are_built() {
    let header = rows(&[&["a", "b", "c"]]);
    let data = rows(&[&["1", "2", "3"], &["4", "5", "6"]]);
    let merges = vec![
        ChunkMerge { start_row: 0, end_row: 0, start_col: 0, end_col: 1, value: "a".to_string() },
        ChunkMerge { start_row: 1, end_row: 2, start_col: 2, end_col: 2, value: "3".to_string() },
    ];
    assert!(excel_helper::build_chunk_sheet(&header, &data, &merges).is_ok());
}

#[test]
fn overlapping_merges_are_a_write_error() {
    let header = rows(&[&["a", "b", "c"]]);
    let merges = vec![
        ChunkMerge { start_row: 0, end_row: 1, start_col: 0, end_col: 1, value: "a".to_string() },
        ChunkMerge { start_row: 1, end_row: 2, start_col: 1, end_col: 2, value: "b".to_string() },
    ];
    assert!(matches!(
        excel_helper::build_chunk_sheet(&header, &Vec::new(), &merges),
        Err(SplitError::WriteError)
    ));
}
