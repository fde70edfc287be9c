use std::io::Write;
use table_codec::api::{decode_table, encode_table};
use table_codec::cellref::parse_merge_range;
use table_codec::container::convert_xlsx_to_vec;
use table_codec::error::TableError;

fn make_zip(members: &[(&str, &str)]) -> Vec<u8> {
    let mut w = zip::ZipWriter::new(std::io::Cursor::new(Vec::new()));
    let options = zip::write::SimpleFileOptions::default();
    for (name, content) in members {
        w.start_file(*name, options).unwrap();
        w.write_all(content.as_bytes()).unwrap();
    }
    w.finish().unwrap().into_inner()
}

fn s(x: &str) -> String {
    x.to_string()
}

#[test]
fn merge_region_keeps_only_the_origin() {
    // a 3x3 sheet with merge region (0,0)-(1,1) and origin value "X"
    let sheet = "<worksheet><sheetData>\
        <row r=\"1\"><c r=\"A1\"><v>X</v></c><c r=\"B1\"><v>b</v></c><c r=\"C1\"><v>c</v></c></row>\
        <row r=\"2\"><c r=\"A2\"><v>d</v></c><c r=\"B2\"><v>e</v></c><c r=\"C2\"><v>f</v></c></row>\
        <row r=\"3\"><c r=\"A3\"><v>g</v></c><c r=\"B3\"><v>h</v></c><c r=\"C3\"><v>i</v></c></row>\
        </sheetData><mergeCells count=\"1\"><mergeCell ref=\"A1:B2\"/></mergeCells></worksheet>";
    let data = make_zip(&[("xl/worksheets/sheet1.xml", sheet)]);
    let (cols, rows) = convert_xlsx_to_vec(data).unwrap();
    assert_eq!(cols, vec![s("X"), s(""), s("c")]);
    assert_eq!(rows, vec![vec![s(""), s(""), s("f")], vec![s("g"), s("h"), s("i")]]);
}

#[test]
fn merge_region_with_paired_tags() {
    let sheet = "<worksheet><sheetData>\
        <row r=\"1\"><c r=\"A1\"><v>X</v></c><c r=\"B1\"><v>b</v></c></row>\
        <row r=\"2\"><c r=\"A2\"><v>d</v></c><c r=\"B2\"><v>e</v></c></row>\
        </sheetData><mergeCells><mergeCell ref=\"A1:B2\"></mergeCell></mergeCells></worksheet>";
    let data = make_zip(&[("xl/worksheets/sheet1.xml", sheet)]);
    let (cols, rows) = convert_xlsx_to_vec(data).unwrap();
    assert_eq!(cols, vec![s("X"), s("")]);
    assert_eq!(rows, vec![vec![s(""), s("")]]);
}

#[test]
fn large_sheet_skips_merge_resolution() {
    let mut sheet = String::from("<worksheet><sheetData>");
    for r in 1..=10000 {
        sheet.push_str(&format!("<row r=\"{}\"><c r=\"A{}\"><v>w{}</v></c></row>", r, r, r));
    }
    sheet.push_str("<mergeCell ref=\"A1:B2\"/></sheetData></worksheet>");
    let data = make_zip(&[("xl/worksheets/sheet1.xml", &sheet)]);
    let (cols, rows) = convert_xlsx_to_vec(data).unwrap();
    // the region is declared but not applied: no widening, nothing cleared
    assert_eq!(cols, vec![s("w1")]);
    assert_eq!(rows.len(), 9999);
    assert_eq!(rows[0], vec![s("w2")]);
    assert_eq!(rows[1], vec![s("w3")]);
}

#[test]
fn missing_shared_strings_reads_string_cells_as_empty() {
    let sheet = "<worksheet><sheetData>\
        <row r=\"1\"><c r=\"A1\" t=\"s\"><v>0</v></c><c r=\"B1\"><v>7</v></c></row>\
        <row r=\"2\"><c r=\"A2\" t=\"s\"><v>3</v></c><c r=\"B2\"><v>8</v></c></row>\
        </sheetData></worksheet>";
    let data = make_zip(&[("xl/worksheets/sheet1.xml", sheet)]);
    let (cols, rows) = convert_xlsx_to_vec(data).unwrap();
    assert_eq!(cols, vec![s(""), s("7")]);
    assert_eq!(rows, vec![vec![s(""), s("8")]]);
}

#[test]
fn shared_strings_resolve_by_index() {
    let shared = "<sst><si><t>alpha</t></si><si><t>beta&amp;gamma</t></si></sst>";
    let sheet = "<worksheet><sheetData>\
        <row r=\"1\"><c r=\"A1\" t=\"s\"><v>1</v></c><c r=\"B1\" t=\"s\"><v>0</v></c></row>\
        <row r=\"2\"><c r=\"A2\" t=\"s\"><v>9</v></c><c r=\"B2\" t=\"s\"><v>x</v></c></row>\
        </sheetData></worksheet>";
    let data = make_zip(&[("xl/sharedStrings.xml", shared), ("xl/worksheets/sheet1.xml", sheet)]);
    let (cols, rows) = convert_xlsx_to_vec(data).unwrap();
    assert_eq!(cols, vec![s("beta&gamma"), s("alpha")]);
    // index 9 is out of range and becomes empty; "x" parses as index 0
    assert_eq!(rows, vec![vec![s(""), s("alpha")]]);
}

#[test]
fn numeric_cells_in_window_render_as_dates() {
    let sheet = "<worksheet><sheetData>\
        <row r=\"1\"><c r=\"A1\"><v>head</v></c></row>\
        <row r=\"2\"><c r=\"A2\"><v>44200</v></c></row>\
        <row r=\"3\"><c r=\"A3\"><v>5</v></c></row>\
        </sheetData></worksheet>";
    let data = make_zip(&[("xl/worksheets/sheet1.xml", sheet)]);
    let (cols, rows) = convert_xlsx_to_vec(data).unwrap();
    assert_eq!(cols, vec![s("head")]);
    assert_eq!(rows, vec![vec![s("04.01.2021")], vec![s("5")]]);
}

#[test]
fn ragged_rows_are_padded_to_the_widest() {
    let sheet = "<worksheet><sheetData>\
        <row r=\"1\"><c r=\"A1\"><v>a</v></c><c r=\"B1\"><v>b</v></c><c r=\"C1\"><v>c</v></c></row>\
        <row r=\"2\"><c r=\"A2\"><v>d</v></c></row>\
        </sheetData></worksheet>";
    let data = make_zip(&[("xl/worksheets/sheet1.xml", sheet)]);
    let (cols, rows) = convert_xlsx_to_vec(data).unwrap();
    assert_eq!(cols.len(), 3);
    for row in &rows {
        assert_eq!(row.len(), 3);
    }
    assert_eq!(rows, vec![vec![s("d"), s(""), s("")]]);
}

#[test]
fn row_without_index_follows_the_previous_row() {
    let sheet = "<worksheet><sheetData>\
        <row r=\"2\"><c><v>a</v></c></row>\
        <row><c><v>b</v></c></row>\
        </sheetData></worksheet>";
    let data = make_zip(&[("xl/worksheets/sheet1.xml", sheet)]);
    let (cols, rows) = convert_xlsx_to_vec(data).unwrap();
    // rows 0 (empty), 1 ("a"), 2 ("b"); the header is the empty row 0
    assert_eq!(cols, vec![s("")]);
    assert_eq!(rows, vec![vec![s("a")], vec![s("b")]]);
}

#[test]
fn missing_worksheet_is_fatal() {
    let data = make_zip(&[("xl/sharedStrings.xml", "<sst></sst>")]);
    assert_eq!(convert_xlsx_to_vec(data), Err(TableError::MissingPart));
}

#[test]
fn garbage_is_not_a_container() {
    let data = b"this is not a zip archive".to_vec();
    assert_eq!(convert_xlsx_to_vec(data), Err(TableError::MalformedContainer));
}

#[test]
fn unclosed_markup_is_malformed_xml() {
    let data = make_zip(&[("xl/worksheets/sheet1.xml", "<worksheet><row")]);
    match convert_xlsx_to_vec(data) {
        Err(TableError::MalformedXml(_)) => {},
        other => panic!("expected a malformed-xml failure, got {:?}", other),
    }
}

#[test]
fn round_trip_through_the_encoder() {
    // encoding then decoding gives the table back exactly
    let columns = vec![s("A"), s("B")];
    let rows = vec![vec![s("1"), s("2")]];
    let bytes = encode_table("xlsx", &columns, &rows).unwrap();
    let (cols2, rows2) = convert_xlsx_to_vec(bytes).unwrap();
    assert_eq!(cols2, columns);
    assert_eq!(rows2, rows);
}

#[test]
fn round_trip_with_empty_cells() {
    let columns = vec![s("A"), s("B"), s("C")];
    let rows = vec![vec![s("x"), s(""), s("z")], vec![s(""), s("y"), s("")]];
    let bytes = encode_table("xlsx", &columns, &rows).unwrap();
    let (cols2, rows2) = convert_xlsx_to_vec(bytes).unwrap();
    assert_eq!(cols2, columns);
    assert_eq!(rows2, rows);
}

#[test]
fn decode_table_dispatches_by_extension() {
    let sheet = "<worksheet><sheetData>\
        <row r=\"1\"><c r=\"A1\"><v>h</v></c></row>\
        <row r=\"2\"><c r=\"A2\"><v>v</v></c></row>\
        </sheetData></worksheet>";
    let data = make_zip(&[("xl/worksheets/sheet1.xml", sheet)]);
    let (cols, rows) = decode_table("Report.XLSX", data).unwrap();
    assert_eq!(cols, vec![s("h")]);
    assert_eq!(rows, vec![vec![s("v")]]);
}

#[test]
fn decode_table_rejects_unknown_extensions() {
    assert_eq!(
        decode_table("notes.txt", b"A;B".to_vec()),
        Err(TableError::UnsupportedFormat)
    );
}

#[test]
fn merge_range_parses_zero_based() {
    assert_eq!(parse_merge_range("A1:C3"), Some((0, 0, 2, 2)));
    assert_eq!(parse_merge_range("B2:B2"), Some((1, 1, 1, 1)));
    assert_eq!(parse_merge_range("AA10:AB12"), Some((9, 26, 11, 27)));
    assert_eq!(parse_merge_range("A1"), None);
    assert_eq!(parse_merge_range("1:B2"), None);
    assert_eq!(parse_merge_range("A1:B2:C3"), None);
}

#[test]
fn encoder_refuses_tables_past_the_column_limit() {
    let columns: Vec<String> = (0..16385).map(|i| format!("c{}", i)).collect();
    let rows: Vec<Vec<String>> = vec![];
    assert!(matches!(
        encode_table("xlsx", &columns, &rows),
        Err(TableError::EncodeFailure(_))
    ));
    // the open-document writer addresses far wider sheets
    assert!(encode_table("ods", &columns, &rows).is_ok());
}

#[test]
fn encoder_refuses_cells_past_the_character_cap() {
    let columns = vec![s("A")];
    let long = "x".repeat(32768);
    let rows = vec![vec![long.clone()]];
    assert!(matches!(
        encode_table("xlsx", &columns, &rows),
        Err(TableError::EncodeFailure(_))
    ));
    assert!(encode_table("ods", &columns, &rows).is_ok());
}

#[test]
fn encoder_accepts_cells_at_the_character_cap() {
    let columns = vec![s("A")];
    let rows = vec![vec!["x".repeat(32767)]];
    let bytes = encode_table("xlsx", &columns, &rows).unwrap();
    let (cols2, rows2) = table_codec::container::convert_xlsx_to_vec(bytes).unwrap();
    assert_eq!(cols2, columns);
    assert_eq!(rows2, rows);
}
