use excel_helper::{
    CalendarFields, CellValue, StatusMessage, build_output_path, convert_row, format_cell,
    format_float_text,
};

fn float_cell(v: f64) -> CellValue {
    let repr = if v.is_finite() && v.fract() == 0.0 { format!("{:.0}", v) } else { format!("{v}") };
    CellValue::Float(repr)
}

#[test]
fn float_two_point_zero_is_two() {
    assert_eq!(format_cell(&float_cell(2.0)), "2");
}

#[test]
fn float_one_point_fifty_is_one_point_five() {
    assert_eq!(format_cell(&float_cell(1.50)), "1.5");
    assert_eq!(format_float_text("1.50"), "1.5");
}

#[test]
fn integer_three_is_three() {
    assert_eq!(format_cell(&CellValue::Int(3)), "3");
}

#[test]
fn trailing_zeros_keep_one_digit() {
    assert_eq!(format_float_text("2.000"), "2.0");
    assert_eq!(format_float_text("0.250"), "0.25");
    assert_eq!(format_float_text("100"), "100");
    assert_eq!(format_float_text("inf"), "inf");
    assert_eq!(format_float_text("NaN"), "NaN");
}

#[test]
fn non_finite_floats_render_as_tokens() {
    assert_eq!(format_cell(&float_cell(f64::INFINITY)), "inf");
    assert_eq!(format_cell(&float_cell(f64::NAN)), "NaN");
}

#[test]
fn integers_render_in_decimal() {
    assert_eq!(format_cell(&CellValue::Int(0)), "0");
    assert_eq!(format_cell(&CellValue::Int(-42)), "-42");
    assert_eq!(format_cell(&CellValue::Int(1234567)), "1234567");
    assert_eq!(format_cell(&CellValue::Int(i64::MIN)), "-9223372036854775808");
    assert_eq!(format_cell(&CellValue::Int(i64::MAX)), "9223372036854775807");
}

#[test]
fn other_kinds_render() {
    assert_eq!(format_cell(&CellValue::Empty), "");
    assert_eq!(format_cell(&CellValue::Text("abc".to_string())), "abc");
    assert_eq!(format_cell(&CellValue::Bool(true)), "TRUE");
    assert_eq!(format_cell(&CellValue::Bool(false)), "FALSE");
    assert_eq!(format_cell(&CellValue::IsoText("PT1H".to_string())), "PT1H");
    assert_eq!(format_cell(&CellValue::DateTimeSerial("45000.5".to_string())), "45000.5");
    assert_eq!(format_cell(&CellValue::Error("Div0".to_string())), "错误: Div0");
}

#[test]
fn date_times_are_zero_padded() {
    let f = CalendarFields { year: 2024, month: 3, day: 7, hour: 9, minute: 5, second: 0 };
    assert_eq!(format_cell(&CellValue::DateTime(f)), "2024-03-07 09:05:00");
    let g = CalendarFields { year: 987, month: 12, day: 31, hour: 23, minute: 59, second: 59 };
    assert_eq!(format_cell(&CellValue::DateTime(g)), "0987-12-31 23:59:59");
}

#[test]
fn rows_convert_cell_by_cell() {
    let row = vec![CellValue::Int(1), CellValue::Empty, CellValue::Text("x".to_string())];
    assert_eq!(convert_row(&row), vec!["1".to_string(), String::new(), "x".to_string()]);
}

#[test]
fn output_names_carry_stem_and_index() {
    assert_eq!(build_output_path(Some("report"), 3), "report_part3.xlsx");
    assert_eq!(build_output_path(None, 12), "split_part12.xlsx");
}

#[test]
fn status_messages_keep_their_text() {
    assert!(matches!(StatusMessage::info("a"), StatusMessage::Info(m) if m == "a"));
    assert!(matches!(StatusMessage::success("b"), StatusMessage::Success(m) if m == "b"));
    assert!(matches!(StatusMessage::error("c"), StatusMessage::Error(m) if m == "c"));
}

#[test]
fn normalising_twice_changes_nothing() {
    for repr in ["3.1400", "2.0", "2", "0.5", "10.000", "inf"] {
        let once = format_float_text(repr);
        assert_eq!(format_float_text(&once), once);
    }
}
