use excel_helper::{
    CountError, RequestError, check_split_request, parse_count, parse_header_rows, parse_row_limit,
    parse_trimmed_count,
};

#[test]
fn counts_are_read_after_trimming() {
    assert_eq!(parse_header_rows(" 2 "), Ok(2));
    assert_eq!(parse_row_limit("500"), Ok(500));
    assert_eq!(parse_count("\t+7\n"), Ok(7));
}

#[test]
fn bad_counts_are_refused() {
    assert_eq!(parse_count("   "), Err(CountError::Empty));
    assert_eq!(parse_count(""), Err(CountError::Empty));
    assert_eq!(parse_count("0"), Err(CountError::Zero));
    assert_eq!(parse_count("000"), Err(CountError::Zero));
    assert_eq!(parse_count("-3"), Err(CountError::NotANumber));
    assert_eq!(parse_count("+"), Err(CountError::NotANumber));
    assert_eq!(parse_count("1 2"), Err(CountError::NotANumber));
    assert_eq!(parse_count("12a"), Err(CountError::NotANumber));
    assert_eq!(parse_count("99999999999999999999999"), Err(CountError::NotANumber));
}

#[test]
fn counts_agree_with_std_parsing() {
    for s in ["1", "42", "+5", "18446744073709551615", "18446744073709551616", "x", "", "0"] {
        let expected = s.parse::<usize>().ok().filter(|v| *v > 0);
        assert_eq!(parse_trimmed_count(s).ok(), expected);
    }
}

#[test]
fn untrimmed_text_is_not_a_number() {
    assert_eq!(parse_trimmed_count(" 1"), Err(CountError::NotANumber));
}

#[test]
fn request_needs_a_file() {
    assert_eq!(check_split_request(false, "1", "500"), Err(RequestError::NoFile));
}

#[test]
fn request_reports_the_first_bad_count() {
    assert_eq!(check_split_request(true, "", "x"), Err(RequestError::HeaderRows(CountError::Empty)));
    assert_eq!(check_split_request(true, "2", "0"), Err(RequestError::RowLimit(CountError::Zero)));
    assert_eq!(
        check_split_request(true, "2", "abc"),
        Err(RequestError::RowLimit(CountError::NotANumber))
    );
}

#[test]
fn request_limit_must_exceed_header() {
    assert_eq!(check_split_request(true, "3", "3"), Err(RequestError::LimitNotAboveHeader));
    assert_eq!(check_split_request(true, " 1 ", " 500 "), Ok((1, 500)));
}
