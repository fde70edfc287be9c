use std::io::Write;
use table_codec::api::encode_table;
use table_codec::container::convert_ods_to_vec;
use table_codec::error::TableError;

fn make_zip(members: &[(&str, &str)]) -> Vec<u8> {
    let mut w = zip::ZipWriter::new(std::io::Cursor::new(Vec::new()));
    let options = zip::write::SimpleFileOptions::default();
    for (name, content) in members {
        w.start_file(*name, options).unwrap();
        w.write_all(content.as_bytes()).unwrap();
    }
    w.finish().unwrap().into_inner()
}

fn s(x: &str) -> String {
    x.to_string()
}

fn cell(attrs: &str, text: &str) -> String {
    format!("<table:table-cell {}><text:p>{}</text:p></table:table-cell>", attrs, text)
}

fn content_of(rows: &[String]) -> String {
    let mut c = String::from("<office:document-content><office:body><office:spreadsheet><table:table>");
    for r in rows {
        c.push_str(&format!("<table:table-row>{}</table:table-row>", r));
    }
    c.push_str("</table:table></office:spreadsheet></office:body></office:document-content>");
    c
}

#[test]
fn plain_text_cells() {
    let content = content_of(&[
        cell("office:value-type=\"string\"", "A") + &cell("office:value-type=\"string\"", "B"),
        cell("office:value-type=\"string\"", " one ") + &cell("office:value-type=\"string\"", "two"),
    ]);
    let data = make_zip(&[("content.xml", &content)]);
    let (cols, rows) = convert_ods_to_vec(data).unwrap();
    assert_eq!(cols, vec![s("A"), s("B")]);
    assert_eq!(rows, vec![vec![s("one"), s("two")]]);
}

#[test]
fn date_value_attribute_wins() {
    let content = content_of(&[
        cell("office:value-type=\"string\"", "h"),
        cell("office:date-value=\"2021-01-04\" office:value-type=\"date\"", "ignored"),
    ]);
    let data = make_zip(&[("content.xml", &content)]);
    let (cols, rows) = convert_ods_to_vec(data).unwrap();
    assert_eq!(cols, vec![s("h")]);
    assert_eq!(rows, vec![vec![s("04.01.2021")]]);
}

#[test]
fn date_typed_text_formats() {
    let content = content_of(&[
        cell("office:value-type=\"string\"", "h"),
        cell("office:value-type=\"date\"", "2020-02-29"),
    ]);
    let data = make_zip(&[("content.xml", &content)]);
    let (_, rows) = convert_ods_to_vec(data).unwrap();
    assert_eq!(rows, vec![vec![s("29.02.2020")]]);
}

#[test]
fn float_value_goes_through_the_serial_window() {
    let content = content_of(&[
        cell("office:value-type=\"string\"", "h") + &cell("office:value-type=\"string\"", "h2"),
        cell("office:value-type=\"float\" office:value=\"44200\"", "44200")
            + &cell("office:value-type=\"float\" office:value=\"5\"", "5"),
    ]);
    let data = make_zip(&[("content.xml", &content)]);
    let (_, rows) = convert_ods_to_vec(data).unwrap();
    assert_eq!(rows, vec![vec![s("04.01.2021"), s("5")]]);
}

#[test]
fn empty_rows_are_dropped() {
    let content = content_of(&[
        cell("office:value-type=\"string\"", "h"),
        String::new(),
        cell("office:value-type=\"string\"", "v"),
    ]);
    let data = make_zip(&[("content.xml", &content)]);
    let (cols, rows) = convert_ods_to_vec(data).unwrap();
    assert_eq!(cols, vec![s("h")]);
    assert_eq!(rows, vec![vec![s("v")]]);
}

#[test]
fn ods_ragged_rows_are_padded() {
    let content = content_of(&[
        cell("office:value-type=\"string\"", "a") + &cell("office:value-type=\"string\"", "b"),
        cell("office:value-type=\"string\"", "c"),
    ]);
    let data = make_zip(&[("content.xml", &content)]);
    let (cols, rows) = convert_ods_to_vec(data).unwrap();
    assert_eq!(cols.len(), 2);
    for row in &rows {
        assert_eq!(row.len(), cols.len());
    }
    assert_eq!(rows, vec![vec![s("c"), s("")]]);
}

#[test]
fn missing_content_is_fatal() {
    let data = make_zip(&[("mimetype", "application/vnd.oasis.opendocument.spreadsheet")]);
    assert_eq!(convert_ods_to_vec(data), Err(TableError::MissingPart));
}

#[test]
fn ods_round_trip_through_the_encoder() {
    let columns = vec![s("A"), s("B")];
    let rows = vec![vec![s("x"), s("y")], vec![s("p"), s("q")]];
    let bytes = encode_table("ods", &columns, &rows).unwrap();
    let (cols2, rows2) = convert_ods_to_vec(bytes).unwrap();
    assert_eq!(cols2, columns);
    assert_eq!(rows2, rows);
}
