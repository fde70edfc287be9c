//! The codec's boundary: format dispatch by file-name extension on the
//! way in, and by requested format name on the way out.

use vstd::prelude::*;
use crate::container::{convert_ods_to_vec, convert_xlsx_to_vec, ods_outcome, xlsx_outcome};
use crate::csvdec::{convert_csv_to_vec, csv_outcome};
use crate::encode::{build_ods, build_xlsx, ods_fits, xlsx_fits};
use crate::error::TableError;
use crate::text::{ext_matches, name_has_ext, str_to_chars};

verus! {

/// Whether a requested format name selects the open-document writer:
/// exactly the three letters `ods`, in any case.
pub open spec fn is_ods_request(f: Seq<char>) -> bool {
    f.len() == 3 && ext_matches(f, "ods"@)
}

/// Decodes an uploaded byte buffer by its file name's extension,
/// case-insensitively: `.csv`, `.xlsx` or `.ods`.  Any other name is an
/// unsupported format, and that is the only input for which the
/// unsupported-format failure is returned.  Every decoded table is
/// rectangular: each row exactly as wide as the header.
pub fn decode_table(filename: &str, data: Vec<u8>) -> (r: Result<(Vec<String>, Vec<Vec<String>>),
    TableError,
>)
    ensures
        match r {
            Ok(t) => forall|i: int|
                0 <= i < t.1@.len() ==> (#[trigger] t.1@[i])@.len() == t.0@.len(),
            Err(_) => true,
        },
        (r == Err::<(Vec<String>, Vec<Vec<String>>), TableError>(TableError::UnsupportedFormat))
            == (!ext_matches(filename@, ".csv"@) && !ext_matches(filename@, ".xlsx"@)
            && !ext_matches(filename@, ".ods"@)),
        ext_matches(filename@, ".csv"@) ==> csv_outcome(data@, r),
        !ext_matches(filename@, ".csv"@) && ext_matches(filename@, ".xlsx"@) ==> xlsx_outcome(
            data@,
            r,
        ),
        !ext_matches(filename@, ".csv"@) && !ext_matches(filename@, ".xlsx"@) && ext_matches(
            filename@,
            ".ods"@,
        ) ==> ods_outcome(data@, r),
{
    let name = str_to_chars(filename);
    if name_has_ext(&name, ".csv") {
        convert_csv_to_vec(data.as_slice())
    } else if name_has_ext(&name, ".xlsx") {
        convert_xlsx_to_vec(data)
    } else if name_has_ext(&name, ".ods") {
        convert_ods_to_vec(data)
    } else {
        Err(TableError::UnsupportedFormat)
    }
}

/// Encodes the canonical table in the requested format: `ods`, matched
/// case-insensitively, selects the open-document writer; anything else
/// falls back to the office-open writer.  The only failure either writer
/// reports is its own opaque encode failure.
pub fn encode_table(format: &str, columns: &Vec<String>, rows: &Vec<Vec<String>>) -> (r: Result<
    Vec<u8>,
    TableError,
>)
    ensures
        r matches Err(e) ==> e is EncodeFailure,
        is_ods_request(format@) ==> ((r is Ok ==> ods_fits(columns@, rows@)) && (!ods_fits(
            columns@,
            rows@,
        ) ==> r is Err)),
        !is_ods_request(format@) ==> ((r is Ok ==> xlsx_fits(columns@, rows@)) && (!xlsx_fits(
            columns@,
            rows@,
        ) ==> r is Err)),
{
    let f = str_to_chars(format);
    if f.len() == 3 && name_has_ext(&f, "ods") {
        build_ods(columns, rows)
    } else {
        build_xlsx(columns, rows)
    }
}

} // verus!
