use table_codec::csvdec::convert_csv_to_vec;
use table_codec::sniff::sniff_delimiter;

#[test]
fn sniff_prefers_most_frequent() {
    // five semicolons, two commas, no tabs, no pipes
    let sample = b"a;b;c;d;e;f,g,h";
    assert_eq!(sniff_delimiter(sample), b';');
}

#[test]
fn sniff_all_zero_defaults_to_semicolon() {
    assert_eq!(sniff_delimiter(b"abc def"), b';');
}

#[test]
fn sniff_comma_wins_when_it_leads() {
    assert_eq!(sniff_delimiter(b"a,b,c"), b',');
}

#[test]
fn sniff_tab_and_pipe() {
    assert_eq!(sniff_delimiter(b"a\tb\tc"), b'\t');
    assert_eq!(sniff_delimiter(b"a|b|c"), b'|');
}

#[test]
fn sniff_tie_keeps_declared_order() {
    // one semicolon, one comma: the semicolon is earlier in the order
    assert_eq!(sniff_delimiter(b"a;b,c"), b';');
}

#[test]
fn csv_basic_semicolon() {
    let data = b"A;B\n1;2\n3;4";
    let (cols, rows) = convert_csv_to_vec(data).unwrap();
    assert_eq!(cols, vec!["A".to_string(), "B".to_string()]);
    assert_eq!(rows, vec![vec!["1".to_string(), "2".to_string()], vec![
        "3".to_string(),
        "4".to_string(),
    ]]);
}

#[test]
fn csv_malformed_record_dropped() {
    let data = b"A;B\n1;2;3\n4;5";
    let (cols, rows) = convert_csv_to_vec(data).unwrap();
    assert_eq!(cols.len(), 2);
    assert_eq!(rows, vec![vec!["4".to_string(), "5".to_string()]]);
}

#[test]
fn csv_rows_match_header_width() {
    let data = b"A;B;C\n1;2;3\nx;y\np;q;r;s\nu;v;w";
    let (cols, rows) = convert_csv_to_vec(data).unwrap();
    for row in &rows {
        assert_eq!(row.len(), cols.len());
    }
    assert_eq!(rows.len(), 2);
}

#[test]
fn csv_quoted_fields() {
    let data = b"A,B\n\"x,y\",\"he said \"\"hi\"\"\"";
    let (cols, rows) = convert_csv_to_vec(data).unwrap();
    assert_eq!(cols, vec!["A".to_string(), "B".to_string()]);
    assert_eq!(rows, vec![vec!["x,y".to_string(), "he said \"hi\"".to_string()]]);
}

#[test]
fn csv_empty_input() {
    let (cols, rows) = convert_csv_to_vec(b"").unwrap();
    assert!(cols.is_empty());
    assert!(rows.is_empty());
}

#[test]
fn csv_blank_lines_skipped() {
    let data = b"A;B\r\n\r\n1;2\r\n";
    let (cols, rows) = convert_csv_to_vec(data).unwrap();
    assert_eq!(cols, vec!["A".to_string(), "B".to_string()]);
    assert_eq!(rows, vec![vec!["1".to_string(), "2".to_string()]]);
}

#[test]
fn csv_header_only() {
    let (cols, rows) = convert_csv_to_vec(b"A;B;C").unwrap();
    assert_eq!(cols, vec!["A".to_string(), "B".to_string(), "C".to_string()]);
    assert!(rows.is_empty());
}

#[test]
fn csv_header_that_is_not_utf8_is_fatal() {
    let mut data = b"A;".to_vec();
    data.push(0xFF);
    data.extend_from_slice(b"\n1;2");
    assert_eq!(convert_csv_to_vec(&data), Err(table_codec::error::TableError::Encoding));
}

#[test]
fn csv_data_row_that_is_not_utf8_is_dropped() {
    let mut data = b"A;B\n1;".to_vec();
    data.push(0xFF);
    data.extend_from_slice(b"\n3;4");
    let (cols, rows) = convert_csv_to_vec(&data).unwrap();
    assert_eq!(cols, vec!["A".to_string(), "B".to_string()]);
    assert_eq!(rows, vec![vec!["3".to_string(), "4".to_string()]]);
}

#[test]
fn decode_table_reads_csv_by_extension() {
    let (cols, rows) = table_codec::api::decode_table("data.CSV", b"A;B\n1;2".to_vec()).unwrap();
    assert_eq!(cols, vec!["A".to_string(), "B".to_string()]);
    assert_eq!(rows, vec![vec!["1".to_string(), "2".to_string()]]);
}

#[test]
fn csv_leading_byte_order_mark_is_dropped() {
    let mut data = vec![0xEF, 0xBB, 0xBF];
    data.extend_from_slice(b"A;B\n1;2");
    let (cols, rows) = convert_csv_to_vec(&data).unwrap();
    assert_eq!(cols, vec!["A".to_string(), "B".to_string()]);
    assert_eq!(rows, vec![vec!["1".to_string(), "2".to_string()]]);
}
