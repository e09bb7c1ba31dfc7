use excel_helper::{
    MergeRange, SplitError, XmlAttr, XmlTag, find_sheet_rel_id, find_sheet_target,
    lookup_tag_attr, merges_in_tags, parse_merge_cells, sheet_part_path,
    supports_merge_extraction,
};

const WORKBOOK: &str = r#"<?xml version="1.0" encoding="UTF-8" standalone="yes"?>
<workbook xmlns="http://schemas.openxmlformats.org/spreadsheetml/2006/main" xmlns:r="http://schemas.openxmlformats.org/officeDocument/2006/relationships"><sheets><sheet name="Data &amp; more" sheetId="1" r:id="rId3"/><sheet name="Other" sheetId="2" r:id="rId4"/></sheets></workbook>"#;

const RELS: &str = r#"<?xml version="1.0" encoding="UTF-8" standalone="yes"?>
<Relationships xmlns="http://schemas.openxmlformats.org/package/2006/relationships"><Relationship Id="rId4" Type="t" Target="worksheets/sheet2.xml"/><Relationship Id="rId3" Type="t" Target="/worksheets/sheet1.xml"/></Relationships>"#;

const SHEET: &str = r#"<worksheet><sheetData/><mergeCells count="3"><mergeCell ref="A1:B2"/><mergeCell ref="bad"/><mergeCell ref="D5:C3"/></mergeCells></worksheet>"#;

#[test]
fn sheet_relationship_is_found_by_name() {
    assert_eq!(find_sheet_rel_id(WORKBOOK, "Data & more").ok().unwrap(), "rId3");
    assert_eq!(find_sheet_rel_id(WORKBOOK, "Other").ok().unwrap(), "rId4");
}

#[test]
fn missing_sheet_is_reported() {
    assert_eq!(
        find_sheet_rel_id(WORKBOOK, "Nope"),
        Err(SplitError::RelationshipNotFound("Nope".to_string()))
    );
    assert_eq!(
        find_sheet_target(RELS, "rId9"),
        Err(SplitError::RelationshipNotFound("rId9".to_string()))
    );
}

#[test]
fn sheet_target_is_resolved() {
    let target = find_sheet_target(RELS, "rId3").ok().unwrap();
    assert_eq!(target, "/worksheets/sheet1.xml");
    assert_eq!(sheet_part_path(&target), "xl/worksheets/sheet1.xml");
    assert_eq!(sheet_part_path("worksheets/sheet2.xml"), "xl/worksheets/sheet2.xml");
}

#[test]
fn merge_cells_are_read_and_bad_refs_dropped() {
    let merges = parse_merge_cells(SHEET).ok().unwrap();
    assert_eq!(
        merges,
        vec![
            MergeRange { start_row: 0, end_row: 1, start_col: 0, end_col: 1 },
            MergeRange { start_row: 2, end_row: 4, start_col: 2, end_col: 3 },
        ]
    );
}

#[test]
fn undecodable_attribute_is_malformed() {
    let tags = vec![XmlTag {
        name: "sheet".to_string(),
        attrs: vec![XmlAttr { key: "name".to_string(), value: None }],
    }];
    assert!(matches!(
        lookup_tag_attr(&tags, "sheet", "name", ":id", "x"),
        Err(SplitError::MalformedContainer)
    ));
}

#[test]
fn last_matching_attribute_wins() {
    let tags = vec![XmlTag {
        name: "x:sheet".to_string(),
        attrs: vec![
            XmlAttr { key: "name".to_string(), value: Some("a".to_string()) },
            XmlAttr { key: "r:id".to_string(), value: Some("r1".to_string()) },
            XmlAttr { key: "r:id".to_string(), value: Some("r2".to_string()) },
        ],
    }];
    assert_eq!(lookup_tag_attr(&tags, "sheet", "name", ":id", "a").ok().unwrap(), "r2");
}

#[test]
fn merges_in_tags_reads_ref_attributes() {
    let tags = vec![
        XmlTag {
            name: "mergeCell".to_string(),
            attrs: vec![XmlAttr { key: "ref".to_string(), value: Some("B2:C3".to_string()) }],
        },
        XmlTag {
            name: "cell".to_string(),
            attrs: vec![XmlAttr { key: "ref".to_string(), value: Some("A1:A2".to_string()) }],
        },
    ];
    assert_eq!(
        merges_in_tags(&tags),
        vec![MergeRange { start_row: 1, end_row: 2, start_col: 1, end_col: 2 }]
    );
}

#[test]
fn only_xlsx_extension_has_merges() {
    assert!(supports_merge_extraction("xlsx"));
    assert!(supports_merge_extraction("XLSX"));
    assert!(!supports_merge_extraction("xls"));
    assert!(!supports_merge_extraction("xlsm"));
}

#[test]
fn syntax_error_before_a_match_is_malformed() {
    let broken = r#"<workbook><sheets><sheet name="A" r:id="rId1"></sheets></workbook>"#;
    assert_eq!(find_sheet_rel_id(broken, "B"), Err(SplitError::MalformedContainer));
    assert_eq!(find_sheet_rel_id(broken, "A").ok().unwrap(), "rId1");
    assert_eq!(find_sheet_target("<Relationships><x></y>", "rId1"), Err(SplitError::MalformedContainer));
}

#[test]
fn broken_sheet_part_is_malformed() {
    let broken = r#"<worksheet><mergeCells><mergeCell ref="A1:B2"/></mergeCell></worksheet>"#;
    assert_eq!(parse_merge_cells(broken), Err(SplitError::MalformedContainer));
}
