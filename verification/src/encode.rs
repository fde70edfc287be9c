//! The two table encoders: canonical table out to the office-open and
//! open-document containers.
//!
//! Both writers put the header in row zero and each data row below it,
//! one value per column, every value written as text — lossless over the
//! canonical string table, with no type inference on the way out.  The
//! cells a sheet value holds are modelled as a map, so that the sheet
//! handed to the save call provably holds exactly the table; only the
//! final save into bytes is an opaque outside step.  A
//! writer-level failure surfaces as one opaque failure tagged with the
//! target format; an index past the container's own cell limits counts
//! as such a failure rather than wrapping around.

use vstd::prelude::*;
use crate::error::TableError;

verus! {

#[verifier::external_type_specification]
#[verifier::external_body]
pub struct ExWorksheet(rust_xlsxwriter::Worksheet);

#[verifier::external_type_specification]
#[verifier::external_body]
pub struct ExOdsSheet(spreadsheet_ods::Sheet);

/// The cells a worksheet value holds, keyed by (row, column); what the
/// writer has stored, as a function of the worksheet value alone.
pub uninterp spec fn ws_cells(ws: rust_xlsxwriter::Worksheet) -> Map<(u32, u16), Seq<char>>;

/// No cells at all.
pub open spec fn empty_xlsx_cells() -> Map<(u32, u16), Seq<char>> {
    Map::empty()
}

/// No cells at all.
pub open spec fn empty_ods_cells() -> Map<(u32, u32), Seq<char>> {
    Map::empty()
}

/// Relies on `rust_xlsxwriter::Worksheet::new`: a fresh worksheet holds
/// no cells.
#[verifier::external_body]
fn ws_new() -> (r: rust_xlsxwriter::Worksheet)
    ensures
        ws_cells(r) == empty_xlsx_cells(),
{
    rust_xlsxwriter::Worksheet::new()
}

/// Relies on `rust_xlsxwriter::Worksheet::write_string`: it returns an
/// error exactly when the row reaches 1048576, the column reaches 16384,
/// or the text exceeds 32767 characters — except that an empty text is
/// accepted outright and stores no cell; a stored cell replaces any
/// earlier one at the same spot.
#[verifier::external_body]
fn ws_write_string(ws: &mut rust_xlsxwriter::Worksheet, row: u32, col: u16, s: &str) -> (ok: bool)
    ensures
        ok == (s@.len() == 0 || (row < 1048576 && col < 16384 && s@.len() <= 32767)),
        ws_cells(*final(ws)) == (if ok && s@.len() > 0 {
            ws_cells(*old(ws)).insert((row, col), s@)
        } else {
            ws_cells(*old(ws))
        }),
{
    ws.write_string(row, col, s).is_ok()
}

/// Relies on `rust_xlsxwriter::Workbook::new`, `push_worksheet` and
/// `save_to_buffer`: the workbook with this one sheet serialized as an
/// in-memory office-open container, or nothing on a writer error.  The
/// bytes embed a clock-derived creation stamp, so nothing further can be
/// said of them.
#[verifier::external_body]
fn ws_save_xlsx(ws: rust_xlsxwriter::Worksheet) -> (r: Option<Vec<u8>>) {
    let mut wb = rust_xlsxwriter::Workbook::new();
    wb.push_worksheet(ws);
    wb.save_to_buffer().ok()
}

/// The cells an open-document sheet value holds, keyed by (row, column),
/// as a function of the sheet value alone.
pub uninterp spec fn ods_cells(sheet: spreadsheet_ods::Sheet) -> Map<(u32, u32), Seq<char>>;

/// Relies on `spreadsheet_ods::Sheet::new`: a fresh named sheet holds no
/// cells.
#[verifier::external_body]
fn ods_sheet_new() -> (r: spreadsheet_ods::Sheet)
    ensures
        ods_cells(r) == empty_ods_cells(),
{
    spreadsheet_ods::Sheet::new("Sheet1")
}

/// Relies on `spreadsheet_ods::Sheet::set_value`: it stores the text at
/// the given cell, replacing any earlier value there, and cannot fail.
#[verifier::external_body]
fn ods_set_value(sheet: &mut spreadsheet_ods::Sheet, row: u32, col: u32, s: &str)
    ensures
        ods_cells(*final(sheet)) == ods_cells(*old(sheet)).insert((row, col), s@),
{
    sheet.set_value(row, col, s);
}

/// Relies on `spreadsheet_ods::WorkBook::new_empty`, `push_sheet` and
/// `write_ods_buf`: the workbook with this one sheet serialized as an
/// in-memory open-document container, or nothing on a writer error.  A
/// workbook made with `new_empty` carries no locale-dependent value
/// formats, which a text-only export never consults.
#[verifier::external_body]
fn ods_save(sheet: spreadsheet_ods::Sheet) -> (r: Option<Vec<u8>>) {
    let mut wb = spreadsheet_ods::WorkBook::new_empty();
    wb.push_sheet(sheet);
    spreadsheet_ods::write_ods_buf(&mut wb, Vec::new()).ok()
}

/// Whether the table lies within the office-open container's own limits:
/// 16384 columns, 1048575 data rows, 32767 characters per cell.
pub open spec fn xlsx_fits(cols: Seq<String>, rows: Seq<Vec<String>>) -> bool {
    cols.len() <= 16384 && rows.len() <= 1048575 && (forall|i: int|
        0 <= i < rows.len() ==> (#[trigger] rows[i])@.len() <= 16384) && (forall|j: int|
        0 <= j < cols.len() ==> (#[trigger] cols[j])@.len() <= 32767) && (forall|i: int, j: int|
        0 <= i < rows.len() && 0 <= j < rows[i]@.len() ==> (#[trigger] rows[i]@[j])@.len()
            <= 32767)
}

/// The worksheet cells after the header and the first `i` data rows are
/// written in full and row `i` up to column `j`: the header at row zero
/// and `rows[r]` at row `r + 1`, empty values leaving no cell.
pub open spec fn xlsx_model_upto(
    cols: Seq<String>,
    rows: Seq<Vec<String>>,
    i: int,
    j: int,
) -> Map<(u32, u16), Seq<char>> {
    Map::new(
        |k: (u32, u16)|
            ((k.0 as int) == 0 && (k.1 as int) < cols.len() && cols[k.1 as int]@.len() > 0) || (1
                <= (k.0 as int) && (k.0 as int) <= rows.len() && ((k.0 as int) - 1 < i || ((
            k.0 as int) - 1 == i && (k.1 as int) < j)) && (k.1 as int) < rows[(k.0 as int)
                - 1]@.len() && rows[(k.0 as int) - 1]@[k.1 as int]@.len() > 0),
        |k: (u32, u16)|
            if (k.0 as int) == 0 {
                cols[k.1 as int]@
            } else {
                rows[(k.0 as int) - 1]@[k.1 as int]@
            },
    )
}

/// The worksheet cells of the whole table.
pub open spec fn xlsx_model(cols: Seq<String>, rows: Seq<Vec<String>>) -> Map<
    (u32, u16),
    Seq<char>,
> {
    xlsx_model_upto(cols, rows, rows.len() as int, 0)
}

/// The header cells alone, up to column `h`.
pub open spec fn xlsx_header_upto(cols: Seq<String>, h: int) -> Map<(u32, u16), Seq<char>> {
    Map::new(
        |k: (u32, u16)|
            (k.0 as int) == 0 && (k.1 as int) < h && (k.1 as int) < cols.len() && cols[(
            k.1 as int)]@.len() > 0,
        |k: (u32, u16)| cols[k.1 as int]@,
    )
}

/// Fills a worksheet with the canonical table: the header as row zero,
/// each data row below it.  On success the sheet's model holds exactly
/// the table's cells; a table past the container's limits is refused,
/// and only such a table is.
#[verifier::loop_isolation(false)]
pub fn build_xlsx_sheet(columns: &Vec<String>, rows: &Vec<Vec<String>>) -> (r: Result<
    rust_xlsxwriter::Worksheet,
    TableError,
>)
    ensures
        match r {
            Ok(ws) => xlsx_fits(columns@, rows@) && ws_cells(ws) == xlsx_model(columns@, rows@),
            Err(e) => e is EncodeFailure && !xlsx_fits(columns@, rows@),
        },
{
    let mut w = ws_new();
    let ncols = columns.len();
    let mut c: usize = 0;
    proof {
        assert(ws_cells(w) =~= xlsx_header_upto(columns@, 0));
    }
    while c < ncols
        invariant
            0 <= c <= ncols,
            c <= 16384,
            ncols == columns@.len(),
            forall|j: int| 0 <= j < c ==> (#[trigger] columns@[j])@.len() <= 32767,
            ws_cells(w) == xlsx_header_upto(columns@, c as int),
        decreases ncols - c,
    {
        if c >= 16384 {
            return Err(TableError::EncodeFailure(String::from_str("xlsx")));
        }
        let ok = ws_write_string(&mut w, 0, c as u16, columns[c].as_str());
        if !ok {
            proof {
                assert(columns@[c as int]@.len() > 32767);
            }
            return Err(TableError::EncodeFailure(String::from_str("xlsx")));
        }
        proof {
            assert(ws_cells(w) =~= xlsx_header_upto(columns@, c + 1));
        }
        c = c + 1;
    }
    proof {
        assert(ws_cells(w) =~= xlsx_model_upto(columns@, rows@, 0, 0));
    }
    let nrows = rows.len();
    let mut i: usize = 0;
    while i < nrows
        invariant
            0 <= i <= nrows,
            i <= 1048575,
            nrows == rows@.len(),
            ncols == columns@.len(),
            ncols <= 16384,
            forall|j: int| 0 <= j < columns@.len() ==> (#[trigger] columns@[j])@.len() <= 32767,
            forall|k: int| 0 <= k < i ==> (#[trigger] rows@[k])@.len() <= 16384,
            forall|k: int, l: int|
                0 <= k < i && 0 <= l < rows@[k]@.len() ==> (#[trigger] rows@[k]@[l])@.len()
                    <= 32767,
            ws_cells(w) == xlsx_model_upto(columns@, rows@, i as int, 0),
        decreases nrows - i,
    {
        if i >= 1048575 {
            return Err(TableError::EncodeFailure(String::from_str("xlsx")));
        }
        let m = rows[i].len();
        let mut j: usize = 0;
        while j < m
            invariant
                0 <= j <= m,
                j <= 16384,
                0 <= i < nrows,
                i < 1048575,
                nrows == rows@.len(),
                m == rows@[i as int]@.len(),
                forall|l: int| 0 <= l < j ==> (#[trigger] rows@[i as int]@[l])@.len() <= 32767,
                ws_cells(w) == xlsx_model_upto(columns@, rows@, i as int, j as int),
            decreases m - j,
        {
            if j >= 16384 {
                return Err(TableError::EncodeFailure(String::from_str("xlsx")));
            }
            let ok = ws_write_string(&mut w, (i + 1) as u32, j as u16, rows[i][j].as_str());
            if !ok {
                proof {
                    assert(rows@[i as int]@[j as int]@.len() > 32767);
                }
                return Err(TableError::EncodeFailure(String::from_str("xlsx")));
            }
            proof {
                assert(ws_cells(w) =~= xlsx_model_upto(columns@, rows@, i as int, j + 1));
            }
            j = j + 1;
        }
        proof {
            assert(ws_cells(w) =~= xlsx_model_upto(columns@, rows@, i + 1, 0));
        }
        i = i + 1;
    }
    Ok(w)
}

/// Serializes the canonical table as an office-open workbook.  The sheet
/// handed to the save call provably holds exactly the table (see
/// `build_xlsx_sheet`); a failure comes only from a table past the
/// container's limits or from the save call itself, and a table past the
/// limits always fails.
pub fn build_xlsx(columns: &Vec<String>, rows: &Vec<Vec<String>>) -> (r: Result<
    Vec<u8>,
    TableError,
>)
    ensures
        r is Ok ==> xlsx_fits(columns@, rows@),
        !xlsx_fits(columns@, rows@) ==> r is Err,
        r matches Err(e) ==> e is EncodeFailure,
{
    let w = match build_xlsx_sheet(columns, rows) {
        Ok(w) => w,
        Err(e) => {
            return Err(e);
        },
    };
    match ws_save_xlsx(w) {
        Some(bytes) => Ok(bytes),
        None => Err(TableError::EncodeFailure(String::from_str("xlsx"))),
    }
}

/// Whether the table lies within the open-document writer's cell
/// addressing: column indices and data row indices must fit its 32-bit
/// coordinates.
pub open spec fn ods_fits(cols: Seq<String>, rows: Seq<Vec<String>>) -> bool {
    cols.len() <= 0xFFFFFFFF && rows.len() <= 0xFFFFFFFE && (forall|i: int|
        0 <= i < rows.len() ==> (#[trigger] rows[i])@.len() <= 0xFFFFFFFF)
}

/// The sheet cells after the header and the first `i` data rows are
/// written in full and row `i` up to column `j`; every value, empty ones
/// included, stores a cell.
pub open spec fn ods_model_upto(
    cols: Seq<String>,
    rows: Seq<Vec<String>>,
    i: int,
    j: int,
) -> Map<(u32, u32), Seq<char>> {
    Map::new(
        |k: (u32, u32)|
            ((k.0 as int) == 0 && (k.1 as int) < cols.len()) || (1 <= (k.0 as int) && (
            k.0 as int) <= rows.len() && ((k.0 as int) - 1 < i || ((k.0 as int) - 1 == i && (
            k.1 as int) < j)) && (k.1 as int) < rows[(k.0 as int) - 1]@.len()),
        |k: (u32, u32)|
            if (k.0 as int) == 0 {
                cols[k.1 as int]@
            } else {
                rows[(k.0 as int) - 1]@[k.1 as int]@
            },
    )
}

/// The sheet cells of the whole table.
pub open spec fn ods_model(cols: Seq<String>, rows: Seq<Vec<String>>) -> Map<
    (u32, u32),
    Seq<char>,
> {
    ods_model_upto(cols, rows, rows.len() as int, 0)
}

/// The header cells alone, up to column `h`.
pub open spec fn ods_header_upto(cols: Seq<String>, h: int) -> Map<(u32, u32), Seq<char>> {
    Map::new(
        |k: (u32, u32)| (k.0 as int) == 0 && (k.1 as int) < h && (k.1 as int) < cols.len(),
        |k: (u32, u32)| cols[k.1 as int]@,
    )
}

/// Fills an open-document sheet with the canonical table: the header as
/// row zero, each data row below it.  On success the sheet's model holds
/// exactly the table's cells; a table past the writer's addressing is
/// refused, and only such a table is.
#[verifier::loop_isolation(false)]
pub fn build_ods_sheet(columns: &Vec<String>, rows: &Vec<Vec<String>>) -> (r: Result<
    spreadsheet_ods::Sheet,
    TableError,
>)
    ensures
        match r {
            Ok(sheet) => ods_fits(columns@, rows@) && ods_cells(sheet) == ods_model(
                columns@,
                rows@,
            ),
            Err(e) => e is EncodeFailure && !ods_fits(columns@, rows@),
        },
{
    let mut w = ods_sheet_new();
    let ncols = columns.len();
    let mut c: usize = 0;
    proof {
        assert(ods_cells(w) =~= ods_header_upto(columns@, 0));
    }
    while c < ncols
        invariant
            0 <= c <= ncols,
            c <= 0xFFFFFFFF,
            ncols == columns@.len(),
            ods_cells(w) == ods_header_upto(columns@, c as int),
        decreases ncols - c,
    {
        if c >= 0xFFFFFFFF {
            return Err(TableError::EncodeFailure(String::from_str("ods")));
        }
        ods_set_value(&mut w, 0, c as u32, columns[c].as_str());
        proof {
            assert(ods_cells(w) =~= ods_header_upto(columns@, c + 1));
        }
        c = c + 1;
    }
    proof {
        assert(ods_cells(w) =~= ods_model_upto(columns@, rows@, 0, 0));
    }
    let nrows = rows.len();
    let mut i: usize = 0;
    while i < nrows
        invariant
            0 <= i <= nrows,
            i <= 0xFFFFFFFE,
            nrows == rows@.len(),
            ncols == columns@.len(),
            ncols <= 0xFFFFFFFF,
            forall|k: int| 0 <= k < i ==> (#[trigger] rows@[k])@.len() <= 0xFFFFFFFF,
            ods_cells(w) == ods_model_upto(columns@, rows@, i as int, 0),
        decreases nrows - i,
    {
        if i >= 0xFFFFFFFE {
            return Err(TableError::EncodeFailure(String::from_str("ods")));
        }
        let m = rows[i].len();
        let mut j: usize = 0;
        while j < m
            invariant
                0 <= j <= m,
                j <= 0xFFFFFFFF,
                0 <= i < nrows,
                i < 0xFFFFFFFE,
                nrows == rows@.len(),
                m == rows@[i as int]@.len(),
                ods_cells(w) == ods_model_upto(columns@, rows@, i as int, j as int),
            decreases m - j,
        {
            if j >= 0xFFFFFFFF {
                return Err(TableError::EncodeFailure(String::from_str("ods")));
            }
            ods_set_value(&mut w, (i + 1) as u32, j as u32, rows[i][j].as_str());
            proof {
                assert(ods_cells(w) =~= ods_model_upto(columns@, rows@, i as int, j + 1));
            }
            j = j + 1;
        }
        proof {
            assert(ods_cells(w) =~= ods_model_upto(columns@, rows@, i + 1, 0));
        }
        i = i + 1;
    }
    Ok(w)
}

/// Serializes the canonical table as an open-document workbook.  The
/// sheet handed to the save call provably holds exactly the table (see
/// `build_ods_sheet`); a failure comes only from a table past the
/// writer's addressing or from the save call itself, and a table past
/// the addressing always fails.
pub fn build_ods(columns: &Vec<String>, rows: &Vec<Vec<String>>) -> (r: Result<
    Vec<u8>,
    TableError,
>)
    ensures
        r is Ok ==> ods_fits(columns@, rows@),
        !ods_fits(columns@, rows@) ==> r is Err,
        r matches Err(e) ==> e is EncodeFailure,
{
    let w = match build_ods_sheet(columns, rows) {
        Ok(w) => w,
        Err(e) => {
            return Err(e);
        },
    };
    match ods_save(w) {
        Some(bytes) => Ok(bytes),
        None => Err(TableError::EncodeFailure(String::from_str("ods"))),
    }
}

} // verus!
