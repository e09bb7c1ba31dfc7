use excel_helper::{
    MergeRange, column_index_to_label, column_label_to_index, parse_cell_ref, parse_range_ref,
};

#[test]
fn boundary_columns_decode() {
    assert_eq!(column_label_to_index("A"), Some(0));
    assert_eq!(column_label_to_index("Z"), Some(25));
    assert_eq!(column_label_to_index("AA"), Some(26));
    assert_eq!(column_label_to_index("AZ"), Some(51));
    assert_eq!(column_label_to_index("BA"), Some(52));
    assert_eq!(column_label_to_index("az"), Some(51));
}

#[test]
fn boundary_columns_encode() {
    assert_eq!(column_index_to_label(0), "A");
    assert_eq!(column_index_to_label(25), "Z");
    assert_eq!(column_index_to_label(26), "AA");
    assert_eq!(column_index_to_label(51), "AZ");
    assert_eq!(column_index_to_label(52), "BA");
}

#[test]
fn column_labels_round_trip() {
    for i in [0usize, 1, 25, 26, 51, 52, 701, 702, 16383, 1_000_000] {
        assert_eq!(column_label_to_index(&column_index_to_label(i)), Some(i));
    }
}

#[test]
fn bad_column_labels_are_refused() {
    assert_eq!(column_label_to_index(""), None);
    assert_eq!(column_label_to_index("A1"), None);
    assert_eq!(column_label_to_index("ZZZZZZZZZZZZZZZZZZZZ"), None);
}

#[test]
fn cell_refs_decode() {
    assert_eq!(parse_cell_ref("A1"), Some((0, 0)));
    assert_eq!(parse_cell_ref("B12"), Some((11, 1)));
    assert_eq!(parse_cell_ref("aa10"), Some((9, 26)));
}

#[test]
fn bad_cell_refs_are_refused() {
    assert_eq!(parse_cell_ref(""), None);
    assert_eq!(parse_cell_ref("1A"), None);
    assert_eq!(parse_cell_ref("A"), None);
    assert_eq!(parse_cell_ref("12"), None);
    assert_eq!(parse_cell_ref("A0"), None);
    assert_eq!(parse_cell_ref("A1B"), None);
    assert_eq!(parse_cell_ref("B-2"), None);
    assert_eq!(parse_cell_ref("B 2"), None);
    assert_eq!(parse_cell_ref("$C$3"), None);
    assert_eq!(parse_cell_ref(" A1"), None);
    assert_eq!(parse_cell_ref("A99999999999999999999999"), None);
}

#[test]
fn range_refs_are_ordered() {
    let m = MergeRange { start_row: 1, end_row: 3, start_col: 1, end_col: 2 };
    assert_eq!(parse_range_ref("B2:C4"), Some(m));
    assert_eq!(parse_range_ref("C4:B2"), Some(m));
    assert_eq!(parse_range_ref("C2:B4"), Some(m));
    assert_eq!(parse_range_ref(" B2 : C4 "), Some(m));
}

#[test]
fn single_cell_range_uses_both_ends() {
    let m = MergeRange { start_row: 4, end_row: 4, start_col: 3, end_col: 3 };
    assert_eq!(parse_range_ref("D5"), Some(m));
}

#[test]
fn third_part_of_range_is_ignored() {
    let m = MergeRange { start_row: 0, end_row: 1, start_col: 0, end_col: 1 };
    assert_eq!(parse_range_ref("A1:B2:C3"), Some(m));
}

#[test]
fn bad_range_refs_are_dropped() {
    assert_eq!(parse_range_ref("A1:"), None);
    assert_eq!(parse_range_ref(":B2"), None);
    assert_eq!(parse_range_ref("A1:2B"), None);
    assert_eq!(parse_range_ref(""), None);
    assert_eq!(parse_range_ref("A1:B-2"), None);
    assert_eq!(parse_range_ref("A 1:B2"), None);
}
