use table_codec::serial::{
    classify_serial, format_excel_float_as_date, format_excel_value, format_ods_date,
};

fn chars(s: &str) -> Vec<char> {
    s.chars().collect()
}

#[test]
fn serial_window_hit_formats_a_date() {
    assert_eq!(format_excel_value(&chars("44200")), "04.01.2021");
}

#[test]
fn below_window_is_returned_unchanged() {
    assert_eq!(format_excel_value(&chars("5")), "5");
}

#[test]
fn non_numeric_is_returned_unchanged() {
    assert_eq!(format_excel_value(&chars("abc")), "abc");
}

#[test]
fn window_is_open_at_both_ends() {
    assert_eq!(format_excel_value(&chars("59")), "59");
    assert_eq!(format_excel_value(&chars("60000")), "60000");
    assert_eq!(format_excel_value(&chars("60")), "28.02.1900");
    assert_eq!(format_excel_value(&chars("59999")), "07.04.2064");
}

#[test]
fn fractional_serials_truncate() {
    // 59.5 lies just inside the open window; its day count truncates to 59
    assert_eq!(format_excel_value(&chars("59.5")), "27.02.1900");
    assert_eq!(format_excel_value(&chars("44200.9")), "04.01.2021");
}

#[test]
fn plain_number_in_window_is_misread_as_date() {
    // the known false positive: an ordinary total of 100 renders as a date
    assert_eq!(format_excel_value(&chars("100")), "09.04.1900");
}

#[test]
fn surrounding_space_defeats_the_number_parse() {
    // not a bare number, so the fallback trims it
    assert_eq!(format_excel_value(&chars(" 100 ")), "100");
}

#[test]
fn classify_rejects_signs_out_of_window() {
    assert_eq!(classify_serial(&chars("-100")), None);
    assert_eq!(classify_serial(&chars("+100")), Some(98));
    assert_eq!(classify_serial(&chars("100")), Some(98));
}

#[test]
fn exponent_notation_is_classified_by_value() {
    assert_eq!(classify_serial(&chars("1e4")), Some(9998));
    assert_eq!(format_excel_value(&chars("1e4")), "18.05.1927");
    assert_eq!(format_excel_value(&chars("5.9e3")), "25.02.1916");
    assert_eq!(classify_serial(&chars(".5e3")), Some(498));
    assert_eq!(format_excel_value(&chars(".5e3")), "14.05.1901");
    // 5.9e1 is exactly 59, on the window's open edge
    assert_eq!(classify_serial(&chars("5.9e1")), None);
    // 5.95e1 is 59.5, just inside it
    assert_eq!(classify_serial(&chars("5.95e1")), Some(57));
    assert_eq!(classify_serial(&chars("6e4")), None);
    assert_eq!(classify_serial(&chars("1e-3")), None);
    assert_eq!(classify_serial(&chars("-1e4")), None);
    assert_eq!(classify_serial(&chars("1E4")), Some(9998));
    assert_eq!(classify_serial(&chars("1e999999999999999999999999999999")), None);
}

#[test]
fn malformed_exponents_are_not_numbers() {
    assert_eq!(format_excel_value(&chars("1e")), "1e");
    assert_eq!(format_excel_value(&chars("e4")), "e4");
    assert_eq!(format_excel_value(&chars("1e4x")), "1e4x");
    assert_eq!(format_excel_value(&chars("1ee4")), "1ee4");
    assert_eq!(format_excel_value(&chars("1e+")), "1e+");
}

#[test]
fn float_cell_keeps_value_text_when_not_a_date() {
    assert_eq!(format_excel_float_as_date(&chars("5")), "5");
    assert_eq!(format_excel_float_as_date(&chars(" 5 ")), " 5 ");
    assert_eq!(format_excel_float_as_date(&chars("44200")), "04.01.2021");
}

#[test]
fn iso_date_reformats() {
    assert_eq!(format_ods_date(&chars("2021-01-04")), "04.01.2021");
    assert_eq!(format_ods_date(&chars("2020-2-9")), "09.02.2020");
}

#[test]
fn iso_leap_day() {
    assert_eq!(format_ods_date(&chars("2020-02-29")), "29.02.2020");
    assert_eq!(format_ods_date(&chars("2021-02-29")), "2021-02-29");
    assert_eq!(format_ods_date(&chars("1900-02-29")), "1900-02-29");
    assert_eq!(format_ods_date(&chars("2000-02-29")), "29.02.2000");
}

#[test]
fn iso_invalid_is_returned_unchanged() {
    assert_eq!(format_ods_date(&chars("2021-02-30")), "2021-02-30");
    assert_eq!(format_ods_date(&chars("abc")), "abc");
    assert_eq!(format_ods_date(&chars("2021-13-01")), "2021-13-01");
    assert_eq!(format_ods_date(&chars("2021-01-04T00:00:00")), "2021-01-04T00:00:00");
}
