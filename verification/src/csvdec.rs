//! Delimited-text decoding: a byte-level state machine over fields,
//! quoted fields and record terminators.
//!
//! A record ends at a carriage return or line feed (a `\r\n` pair counts
//! once, since the line feed is skipped at the start of the next record);
//! a field that begins with a double quote runs to the closing quote, a
//! doubled quote inside standing for one literal quote.  Wholly empty
//! lines yield no record.  The first record is the header; a later record
//! is kept only when it has exactly as many fields as the header and each
//! field is valid UTF-8 — anything else is dropped, never fatal.

use vstd::prelude::*;
use crate::error::TableError;
use crate::sniff::{sniff_spec, sniff_delimiter};

verus! {

/// Where the scanner stands between two bytes.
#[derive(Clone, Copy, PartialEq, Eq, Structural, Debug)]
pub enum CsvMode {
    /// Before the first byte of a record; terminator bytes are skipped here.
    RecordStart,
    /// Before the first byte of a field that is not the record's first.
    FieldStart,
    /// Inside an unquoted field.
    Unquoted,
    /// Inside a quoted field.
    Quoted,
    /// Just after a quote inside a quoted field.
    QuoteQuote,
}

/// The scanner's whole state: finished records, the open record, the open
/// field, and the mode.
pub struct CsvScan {
    pub recs: Seq<Seq<Seq<u8>>>,
    pub row: Seq<Seq<u8>>,
    pub field: Seq<u8>,
    pub mode: CsvMode,
}

pub open spec fn csv_init() -> CsvScan {
    CsvScan { recs: Seq::empty(), row: Seq::empty(), field: Seq::empty(), mode: CsvMode::RecordStart }
}

/// A record-terminator byte: carriage return or line feed.
pub open spec fn is_term_byte(b: u8) -> bool {
    b == 13 || b == 10
}

/// One byte of input, with `d` as the field delimiter.
pub open spec fn csv_step(st: CsvScan, b: u8, d: u8) -> CsvScan {
    match st.mode {
        CsvMode::RecordStart => {
            if is_term_byte(b) {
                st
            } else if b == 34 {
                CsvScan { mode: CsvMode::Quoted, ..st }
            } else if b == d {
                CsvScan { row: st.row.push(st.field), field: Seq::empty(), mode: CsvMode::FieldStart, ..st }
            } else {
                CsvScan { field: st.field.push(b), mode: CsvMode::Unquoted, ..st }
            }
        },
        CsvMode::FieldStart => {
            if b == 34 {
                CsvScan { mode: CsvMode::Quoted, ..st }
            } else if b == d {
                CsvScan { row: st.row.push(st.field), field: Seq::empty(), mode: CsvMode::FieldStart, ..st }
            } else if is_term_byte(b) {
                CsvScan {
                    recs: st.recs.push(st.row.push(st.field)),
                    row: Seq::empty(),
                    field: Seq::empty(),
                    mode: CsvMode::RecordStart,
                }
            } else {
                CsvScan { field: st.field.push(b), mode: CsvMode::Unquoted, ..st }
            }
        },
        CsvMode::Unquoted => {
            if b == d {
                CsvScan { row: st.row.push(st.field), field: Seq::empty(), mode: CsvMode::FieldStart, ..st }
            } else if is_term_byte(b) {
                CsvScan {
                    recs: st.recs.push(st.row.push(st.field)),
                    row: Seq::empty(),
                    field: Seq::empty(),
                    mode: CsvMode::RecordStart,
                }
            } else {
                CsvScan { field: st.field.push(b), ..st }
            }
        },
        CsvMode::Quoted => {
            if b == 34 {
                CsvScan { mode: CsvMode::QuoteQuote, ..st }
            } else {
                CsvScan { field: st.field.push(b), ..st }
            }
        },
        CsvMode::QuoteQuote => {
            if b == 34 {
                CsvScan { field: st.field.push(34u8), mode: CsvMode::Quoted, ..st }
            } else if b == d {
                CsvScan { row: st.row.push(st.field), field: Seq::empty(), mode: CsvMode::FieldStart, ..st }
            } else if is_term_byte(b) {
                CsvScan {
                    recs: st.recs.push(st.row.push(st.field)),
                    row: Seq::empty(),
                    field: Seq::empty(),
                    mode: CsvMode::RecordStart,
                }
            } else {
                CsvScan { field: st.field.push(b), mode: CsvMode::Unquoted, ..st }
            }
        },
    }
}

/// The scanner run over all of `s`.
pub open spec fn csv_scan(s: Seq<u8>, d: u8) -> CsvScan
    decreases s.len(),
{
    if s.len() == 0 {
        csv_init()
    } else {
        csv_step(csv_scan(s.drop_last(), d), s.last(), d)
    }
}

/// The records of `s`: the scan's output, with the record still open at the
/// end of input closed.
pub open spec fn csv_records_spec(s: Seq<u8>, d: u8) -> Seq<Seq<Seq<u8>>> {
    let st = csv_scan(s, d);
    if st.mode is RecordStart {
        st.recs
    } else {
        st.recs.push(st.row.push(st.field))
    }
}

/// One record's fields, as byte sequences.
pub open spec fn rowb_view(r: Seq<Vec<u8>>) -> Seq<Seq<u8>> {
    r.map_values(|f: Vec<u8>| f@)
}

/// All records, as byte sequences.
pub open spec fn recs_view(g: Seq<Vec<Vec<u8>>>) -> Seq<Seq<Seq<u8>>> {
    g.map_values(|r: Vec<Vec<u8>>| rowb_view(r@))
}

proof fn lemma_rowb_push(a: Seq<Vec<u8>>, f: Vec<u8>)
    ensures
        rowb_view(a.push(f)) == rowb_view(a).push(f@),
{
    assert(rowb_view(a.push(f)) =~= rowb_view(a).push(f@));
}

proof fn lemma_recs_push(a: Seq<Vec<Vec<u8>>>, r: Vec<Vec<u8>>)
    ensures
        recs_view(a.push(r)) == recs_view(a).push(rowb_view(r@)),
{
    assert(recs_view(a.push(r)) =~= recs_view(a).push(rowb_view(r@)));
}

/// Splits `data` into records with delimiter `d`, exactly as
/// `csv_records_spec` states it.
#[verifier::loop_isolation(false)]
pub fn parse_csv_records(data: &[u8], d: u8) -> (r: Vec<Vec<Vec<u8>>>)
    ensures
        recs_view(r@) == csv_records_spec(data@, d),
{
    let n = data.len();
    let mut records: Vec<Vec<Vec<u8>>> = Vec::new();
    let mut row: Vec<Vec<u8>> = Vec::new();
    let mut field: Vec<u8> = Vec::new();
    let mut mode = CsvMode::RecordStart;
    let mut i: usize = 0;
    proof {
        assert(recs_view(records@) =~= Seq::<Seq<Seq<u8>>>::empty());
        assert(rowb_view(row@) =~= Seq::<Seq<u8>>::empty());
        assert(data@.take(0) =~= Seq::<u8>::empty());
    }
    while i < n
        invariant
            0 <= i <= n,
            csv_scan(data@.take(i as int), d) == (CsvScan {
                recs: recs_view(records@),
                row: rowb_view(row@),
                field: field@,
                mode: mode,
            }),
        decreases n - i,
    {
        proof {
            assert(data@.take(i + 1).drop_last() =~= data@.take(i as int));
            assert(data@.take(i + 1).last() == data@[i as int]);
        }
        let ghost pre = csv_scan(data@.take(i as int), d);
        let b = data[i];
        let close_field = match mode {
            CsvMode::RecordStart => b != 13 && b != 10 && b != 34 && b == d,
            CsvMode::FieldStart => b != 34 && b == d,
            CsvMode::Unquoted => b == d,
            CsvMode::Quoted => false,
            CsvMode::QuoteQuote => b != 34 && b == d,
        };
        let close_record = match mode {
            CsvMode::RecordStart => false,
            CsvMode::FieldStart => b != 34 && b != d && (b == 13 || b == 10),
            CsvMode::Unquoted => b != d && (b == 13 || b == 10),
            CsvMode::Quoted => false,
            CsvMode::QuoteQuote => b != 34 && b != d && (b == 13 || b == 10),
        };
        if close_field {
            let f = field;
            field = Vec::new();
            let ghost gf = f;
            let ghost grow = row@;
            row.push(f);
            mode = CsvMode::FieldStart;
            proof {
                lemma_rowb_push(grow, gf);
            }
        } else if close_record {
            let f = field;
            field = Vec::new();
            let ghost gf = f;
            let ghost grow = row@;
            row.push(f);
            let rw = row;
            row = Vec::new();
            let ghost grw = rw;
            let ghost grecs = records@;
            records.push(rw);
            mode = CsvMode::RecordStart;
            proof {
                lemma_rowb_push(grow, gf);
                lemma_recs_push(grecs, grw);
                assert(rowb_view(row@) =~= Seq::<Seq<u8>>::empty());
            }
        } else {
            match mode {
                CsvMode::RecordStart => {
                    if b == 13 || b == 10 {
                    } else if b == 34 {
                        mode = CsvMode::Quoted;
                    } else {
                        field.push(b);
                        mode = CsvMode::Unquoted;
                    }
                },
                CsvMode::FieldStart => {
                    if b == 34 {
                        mode = CsvMode::Quoted;
                    } else {
                        field.push(b);
                        mode = CsvMode::Unquoted;
                    }
                },
                CsvMode::Unquoted => {
                    field.push(b);
                },
                CsvMode::Quoted => {
                    if b == 34 {
                        mode = CsvMode::QuoteQuote;
                    } else {
                        field.push(b);
                    }
                },
                CsvMode::QuoteQuote => {
                    if b == 34 {
                        field.push(34);
                        mode = CsvMode::Quoted;
                    } else {
                        field.push(b);
                        mode = CsvMode::Unquoted;
                    }
                },
            }
        }
        i = i + 1;
    }
    proof {
        assert(data@.take(n as int) =~= data@);
    }
    let ghost st = csv_scan(data@, d);
    match mode {
        CsvMode::RecordStart => {},
        _ => {
            let f = field;
            let ghost gf = f;
            let ghost grow = row@;
            row.push(f);
            let rw = row;
            let ghost grw = rw;
            let ghost grecs = records@;
            records.push(rw);
            proof {
                lemma_rowb_push(grow, gf);
                lemma_recs_push(grecs, grw);
            }
        },
    }
    records
}


/// What UTF-8 decoding yields on a byte sequence, if it is valid; the
/// decoding is a function of the bytes alone.
pub uninterp spec fn utf8_chars(b: Seq<u8>) -> Option<Seq<char>>;

/// Relies on `String::from_utf8`: whether the bytes are valid UTF-8, and
/// what they decode to, depends on the bytes alone; ASCII bytes are always
/// valid and decode each to its own character.
#[verifier::external_body]
fn bytes_to_string(v: Vec<u8>) -> (r: Option<String>)
    ensures
        match (r, utf8_chars(v@)) {
            (Some(s), Some(cs)) => s@ == cs,
            (None, None) => true,
            _ => false,
        },
        (forall|i: int| 0 <= i < v@.len() ==> v@[i] < 128) ==> match r {
            Some(s) => s@.len() == v@.len() && forall|i: int|
                0 <= i < v@.len() ==> s@[i] == v@[i] as char,
            None => false,
        },
{
    match String::from_utf8(v) {
        Ok(s) => Some(s),
        Err(_) => None,
    }
}

/// Decodes a byte vector as UTF-8 text, exactly as `utf8_chars` names
/// it; ASCII bytes always decode, each to its own character.  This is
/// the library's one byte-to-text conversion, shared by every caller
/// that needs the fact on concrete bytes.
pub fn bytes_to_text(v: Vec<u8>) -> (r: Option<String>)
    ensures
        match (r, utf8_chars(v@)) {
            (Some(s), Some(cs)) => s@ == cs,
            (None, None) => true,
            _ => false,
        },
        (forall|i: int| 0 <= i < v@.len() ==> v@[i] < 128) ==> match r {
            Some(s) => s@.len() == v@.len() && forall|i: int|
                0 <= i < v@.len() ==> s@[i] == v@[i] as char,
            None => false,
        },
{
    bytes_to_string(v)
}

/// A fresh copy of a byte vector.
fn copy_bytes(v: &Vec<u8>) -> (r: Vec<u8>)
    ensures
        r@ == v@,
{
    let n = v.len();
    let mut r: Vec<u8> = Vec::new();
    let mut i: usize = 0;
    while i < n
        invariant
            0 <= i <= n,
            n == v@.len(),
            r@ =~= v@.take(i as int),
        decreases n - i,
    {
        r.push(v[i]);
        assert(r@ =~= v@.take(i + 1));
        i = i + 1;
    }
    proof {
        assert(v@.take(n as int) =~= v@);
    }
    r
}

/// One record decoded as UTF-8, field by field; absent when any field is
/// not valid UTF-8.
pub open spec fn utf8_row(r: Seq<Seq<u8>>) -> Option<Seq<Seq<char>>>
    decreases r.len(),
{
    if r.len() == 0 {
        Some(Seq::empty())
    } else {
        match (utf8_row(r.drop_last()), utf8_chars(r.last())) {
            (Some(rest), Some(f)) => Some(rest.push(f)),
            _ => None,
        }
    }
}

proof fn lemma_utf8_row_step(r: Seq<Seq<u8>>, i: int)
    requires
        0 <= i < r.len(),
    ensures
        utf8_row(r.take(i + 1)) == match (utf8_row(r.take(i)), utf8_chars(r[i])) {
            (Some(rest), Some(f)) => Some(rest.push(f)),
            _ => None::<Seq<Seq<char>>>,
        },
{
    let s = r.take(i + 1);
    assert(s.drop_last() =~= r.take(i));
    assert(s.last() == r[i]);
}

proof fn lemma_utf8_row_none(r: Seq<Seq<u8>>, i: int)
    requires
        0 <= i < r.len(),
        utf8_row(r.take(i + 1)) is None,
    ensures
        utf8_row(r) is None,
    decreases r.len(),
{
    if i + 1 < r.len() {
        let s = r.drop_last();
        assert(s.take(i + 1) =~= r.take(i + 1));
        lemma_utf8_row_none(s, i);
    } else {
        assert(r.take(i + 1) =~= r);
    }
}

/// The cells of one row of strings, as character sequences.
pub open spec fn strs_view(s: Seq<String>) -> Seq<Seq<char>> {
    s.map_values(|x: String| x@)
}

/// Converts one record's fields to strings; `None` when a field is not
/// valid UTF-8.
#[verifier::loop_isolation(false)]
fn convert_record(rec: &Vec<Vec<u8>>) -> (r: Option<Vec<String>>)
    ensures
        match r {
            Some(v) => utf8_row(rowb_view(rec@)) == Some(strs_view(v@)) && v@.len() == rec@.len(),
            None => utf8_row(rowb_view(rec@)) is None,
        },
{
    let n = rec.len();
    let mut out: Vec<String> = Vec::new();
    let mut i: usize = 0;
    proof {
        assert(rowb_view(rec@).take(0) =~= Seq::<Seq<u8>>::empty());
        assert(strs_view(out@) =~= Seq::<Seq<char>>::empty());
    }
    while i < n
        invariant
            0 <= i <= n,
            out@.len() == i,
            utf8_row(rowb_view(rec@).take(i as int)) == Some(strs_view(out@)),
        decreases n - i,
    {
        proof {
            lemma_utf8_row_step(rowb_view(rec@), i as int);
        }
        let fb = copy_bytes(&rec[i]);
        match bytes_to_text(fb) {
            Some(s) => {
                let ghost gout = out@;
                out.push(s);
                proof {
                    assert(strs_view(out@) =~= strs_view(gout).push(out@.last()@));
                }
            },
            None => {
                proof {
                    lemma_utf8_row_none(rowb_view(rec@), i as int);
                }
                return None;
            },
        }
        i = i + 1;
    }
    proof {
        assert(rowb_view(rec@).take(n as int) =~= rowb_view(rec@));
    }
    Some(out)
}

/// The data rows kept from the records after the header: those with
/// exactly `ncols` fields, each valid UTF-8.
pub open spec fn csv_rows_spec(recs: Seq<Seq<Seq<u8>>>, ncols: int) -> Seq<Seq<Seq<char>>>
    decreases recs.len(),
{
    if recs.len() == 0 {
        Seq::empty()
    } else {
        let rest = csv_rows_spec(recs.drop_last(), ncols);
        if recs.last().len() == ncols {
            match utf8_row(recs.last()) {
                Some(f) => rest.push(f),
                None => rest,
            }
        } else {
            rest
        }
    }
}

proof fn lemma_csv_rows_step(recs: Seq<Seq<Seq<u8>>>, ncols: int, i: int)
    requires
        0 <= i < recs.len(),
    ensures
        csv_rows_spec(recs.take(i + 1), ncols) == (if recs[i].len() == ncols {
            match utf8_row(recs[i]) {
                Some(f) => csv_rows_spec(recs.take(i), ncols).push(f),
                None => csv_rows_spec(recs.take(i), ncols),
            }
        } else {
            csv_rows_spec(recs.take(i), ncols)
        }),
{
    let s = recs.take(i + 1);
    assert(s.drop_last() =~= recs.take(i));
    assert(s.last() == recs[i]);
}

/// The whole table a delimited byte stream decodes to with delimiter `d`:
/// the first record as header, then the kept data rows; absent only when
/// the header itself is not valid UTF-8.
pub open spec fn csv_table_spec(s: Seq<u8>, d: u8) -> Option<
    (Seq<Seq<char>>, Seq<Seq<Seq<char>>>),
> {
    let recs = csv_records_spec(s, d);
    if recs.len() == 0 {
        Some((Seq::empty(), Seq::empty()))
    } else {
        match utf8_row(recs[0]) {
            None => None,
            Some(hdr) => Some(
                (hdr, csv_rows_spec(recs.subrange(1, recs.len() as int), hdr.len() as int)),
            ),
        }
    }
}

/// `s` with a UTF-8 byte-order mark removed, if it starts with one.
pub open spec fn bom_stripped(s: Seq<u8>) -> Seq<u8> {
    if s.len() >= 3 && s[0] == 0xEF && s[1] == 0xBB && s[2] == 0xBF {
        s.subrange(3, s.len() as int)
    } else {
        s
    }
}

/// How much of the input the delimiter sniffer reads: the first kilobyte.
pub open spec fn sample_len(n: int) -> int {
    if n > 1024 {
        1024
    } else {
        n
    }
}

/// The delimiter the sniffer picks for this input.
pub open spec fn sniffed_delim(s: Seq<u8>) -> u8 {
    sniff_spec(s.take(sample_len(s.len() as int)))
}

/// What the delimited-text decoder owes on `data`: the exact table of
/// `csv_table_spec` (over the sniffed delimiter, after the byte-order
/// mark is dropped), every row as wide as the header; and the encoding
/// failure exactly when the header is not UTF-8 text.
pub open spec fn csv_outcome(
    data: Seq<u8>,
    r: Result<(Vec<String>, Vec<Vec<String>>), TableError>,
) -> bool {
    let body = bom_stripped(data);
    match r {
        Ok(t) => csv_table_spec(body, sniffed_delim(data)) == Some(
            (strs_view(t.0@), crate::grid::cells_view(t.1@)),
        ) && forall|i: int| 0 <= i < t.1@.len() ==> (#[trigger] t.1@[i])@.len() == t.0@.len(),
        Err(e) => e is Encoding && csv_table_spec(body, sniffed_delim(data)) is None,
    }
}

/// Decodes delimited text into the canonical table.
///
/// A leading UTF-8 byte-order mark is dropped before parsing; the field
/// delimiter is sniffed from the first kilobyte; the first record becomes
/// the column headers; every later record is kept only if it has exactly
/// as many fields as the header and decodes as UTF-8, so every returned
/// row has the header's width.  The only fatal failure is a header that
/// is not UTF-8 text.
#[verifier::loop_isolation(false)]
pub fn convert_csv_to_vec(data: &[u8]) -> (r: Result<(Vec<String>, Vec<Vec<String>>), TableError>)
    ensures
        csv_outcome(data@, r),
{
    let n = data.len();
    let upto: usize = if n > 1024 {
        1024
    } else {
        n
    };
    let sample = vstd::slice::slice_subrange(data, 0, upto);
    let d = sniff_delimiter(sample);
    let body: &[u8] = if n >= 3 && data[0] == 0xEF && data[1] == 0xBB && data[2] == 0xBF {
        vstd::slice::slice_subrange(data, 3, n)
    } else {
        vstd::slice::slice_subrange(data, 0, n)
    };
    proof {
        assert(body@ == bom_stripped(data@)) by {
            if !(data@.len() >= 3 && data@[0] == 0xEF && data@[1] == 0xBB && data@[2] == 0xBF) {
                assert(data@.subrange(0, data@.len() as int) =~= data@);
            }
        }
    }
    let records = parse_csv_records(body, d);
    let ghost recs = csv_records_spec(bom_stripped(data@), d);
    if records.len() == 0 {
        proof {
            assert(strs_view(Seq::<String>::empty()) =~= Seq::<Seq<char>>::empty());
            assert(crate::grid::cells_view(Seq::<Vec<String>>::empty()) =~= Seq::<
                Seq<Seq<char>>,
            >::empty());
        }
        return Ok((Vec::new(), Vec::new()));
    }
    let header = match convert_record(&records[0]) {
        Some(h) => h,
        None => {
            return Err(TableError::Encoding);
        },
    };
    let ncols = header.len();
    let ghost tail = recs.subrange(1, recs.len() as int);
    let m = records.len();
    let mut rows: Vec<Vec<String>> = Vec::new();
    let mut i: usize = 1;
    proof {
        assert(tail.take(0) =~= Seq::<Seq<Seq<u8>>>::empty());
        assert(crate::grid::cells_view(rows@) =~= Seq::<Seq<Seq<char>>>::empty());
    }
    while i < m
        invariant
            1 <= i <= m,
            crate::grid::cells_view(rows@) == csv_rows_spec(tail.take(i - 1), ncols as int),
            forall|k: int| 0 <= k < rows@.len() ==> (#[trigger] rows@[k])@.len() == ncols,
        decreases m - i,
    {
        proof {
            lemma_csv_rows_step(tail, ncols as int, i - 1);
            assert(tail[i - 1] == rowb_view(records@[i as int]@));
        }
        if records[i].len() == ncols {
            match convert_record(&records[i]) {
                Some(v) => {
                    let ghost grows = rows@;
                    let ghost gv = v;
                    rows.push(v);
                    proof {
                        assert(crate::grid::cells_view(rows@) =~= crate::grid::cells_view(
                            grows,
                        ).push(strs_view(gv@)));
                    }
                },
                None => {},
            }
        }
        i = i + 1;
    }
    proof {
        assert(tail.take(m - 1) =~= tail);
    }
    Ok((header, rows))
}


} // verus!
