//! The zip-XML container layer: reading members out of an in-memory
//! archive, turning a member's text into XML events, and the two
//! zip-based decode entry points.
//!
//! Opening an archive and extracting a member are pure functions of the
//! input bytes, so their outcomes carry names the contracts speak of:
//! whether the bytes open, how many members they list, and each member's
//! stored name and inflated UTF-8 text.  The member lookup and both
//! entry points are then pinned to those names: which member is chosen,
//! which failure comes on which input, and that equal bytes always give
//! equal outcomes.

use vstd::prelude::*;
use crate::error::TableError;
use crate::grid::{cells_view, row_cells};
use crate::odsdec::{assemble_ods_table, ods_table_spec};
use crate::text::{chars_ends_with, str_to_chars};
use crate::xlsxdec::{assemble_sheet_table, shared_from_events, shared_scan, sheet_table_spec};
use crate::xmltok::{XmlCursor, XmlEvent};

verus! {

/// Whether the bytes open as a readable zip archive; a function of the
/// bytes alone.
pub uninterp spec fn zip_ok(data: Seq<u8>) -> bool;

/// How many members a readable archive lists; a function of the bytes
/// alone.
pub uninterp spec fn zip_count(data: Seq<u8>) -> nat;

/// The stored name of member `i`, or nothing when that member cannot be
/// opened; a function of the bytes alone.
pub uninterp spec fn zip_name_of(data: Seq<u8>, i: int) -> Option<Seq<char>>;

/// Member `i` inflated and decoded as UTF-8 text, or nothing when it
/// cannot be opened, inflated or decoded; a function of the bytes alone.
pub uninterp spec fn zip_text_of(data: Seq<u8>, i: int) -> Option<Seq<char>>;

/// Relies on `zip::ZipArchive::new` over an in-memory cursor: reading
/// the central directory succeeds exactly on a readable zip and depends
/// on the bytes alone; `len` then counts the listed members.
#[verifier::external_body]
fn zip_open_len(data: &Vec<u8>) -> (r: Option<usize>)
    ensures
        (r is Some) == zip_ok(data@),
        r matches Some(n) ==> n as nat == zip_count(data@),
{
    match zip::read::ZipArchive::new(std::io::Cursor::new(data.as_slice())) {
        Ok(z) => Some(z.len()),
        Err(_) => None,
    }
}

/// Relies on `zip::ZipArchive::new`, `by_index` and `ZipFile::name`:
/// member `i`'s stored name, a function of the bytes and the index
/// alone.  The archive is reopened per call; reading alters no state
/// the directory depends on.
#[verifier::external_body]
fn zip_name_at(data: &Vec<u8>, i: usize) -> (r: Option<String>)
    ensures
        match r {
            Some(s) => zip_name_of(data@, i as int) == Some(s@),
            None => zip_name_of(data@, i as int) is None,
        },
{
    let mut z = match zip::read::ZipArchive::new(std::io::Cursor::new(data.as_slice())) {
        Ok(z) => z,
        Err(_) => return None,
    };
    let r = match z.by_index(i) {
        Ok(f) => Some(f.name().to_string()),
        Err(_) => None,
    };
    r
}

/// Relies on `zip::ZipArchive::new`, `by_index` and
/// `std::io::Read::read_to_string`: member `i` inflated and decoded as
/// UTF-8 text, a function of the bytes and the index alone.
#[verifier::external_body]
fn zip_text_at(data: &Vec<u8>, i: usize) -> (r: Option<String>)
    ensures
        match r {
            Some(s) => zip_text_of(data@, i as int) == Some(s@),
            None => zip_text_of(data@, i as int) is None,
        },
{
    let mut z = match zip::read::ZipArchive::new(std::io::Cursor::new(data.as_slice())) {
        Ok(z) => z,
        Err(_) => return None,
    };
    let r = match z.by_index(i) {
        Ok(mut f) => {
            let mut s = String::new();
            match std::io::Read::read_to_string(&mut f, &mut s) {
                Ok(_) => Some(s),
                Err(_) => None,
            }
        },
        Err(_) => None,
    };
    r
}

/// Where the member lookup starting at index `i` ends: the index of the
/// first member from `i` on whose name ends with `suffix`; `-1` when no
/// member does; `-2` when a member's name cannot be read before any
/// match.
pub open spec fn scan_member(data: Seq<u8>, suffix: Seq<char>, i: int) -> int
    decreases zip_count(data) - i,
{
    if i < 0 || i >= zip_count(data) {
        -1
    } else {
        match zip_name_of(data, i) {
            None => -2,
            Some(nm) => if nm.len() >= suffix.len() && nm.subrange(
                nm.len() - suffix.len(),
                nm.len() as int,
            ) == suffix {
                i
            } else {
                scan_member(data, suffix, i + 1)
            },
        }
    }
}

/// Looks up the first archive member whose name ends with `suffix` — the
/// lookup tolerates the with- and without-directory-prefix paths that
/// different producers write — and returns its text, exactly as
/// `scan_member` states it: the found member's text, or absence when no
/// name matches, an unreadable member name failing as a malformed
/// container and an unreadable member text as an encoding failure.
pub fn read_zip_file(data: &Vec<u8>, suffix: &str) -> (r: Result<Option<Vec<char>>, TableError>)
    requires
        zip_ok(data@),
    ensures
        ({
            let j = scan_member(data@, suffix@, 0);
            match r {
                Ok(Some(text)) => j >= 0 && zip_text_of(data@, j) == Some(text@),
                Ok(None) => j == -1,
                Err(e) => (e is MalformedContainer && j == -2) || (e is Encoding && j >= 0
                    && zip_text_of(data@, j) is None),
            }
        }),
{
    let n = match zip_open_len(data) {
        Some(n) => n,
        None => {
            proof {
                assert(false);
            }
            return Err(TableError::MalformedContainer);
        },
    };
    let suf = str_to_chars(suffix);
    let mut i: usize = 0;
    while i < n
        invariant
            0 <= i <= n,
            n as nat == zip_count(data@),
            suf@ == suffix@,
            zip_ok(data@),
            scan_member(data@, suffix@, 0) == scan_member(data@, suffix@, i as int),
        decreases n - i,
    {
        match zip_name_at(data, i) {
            Some(nm) => {
                let nv = str_to_chars(nm.as_str());
                if chars_ends_with(&nv, &suf) {
                    proof {
                        assert(scan_member(data@, suffix@, i as int) == i);
                    }
                    return match zip_text_at(data, i) {
                        Some(s) => Ok(Some(str_to_chars(s.as_str()))),
                        None => Err(TableError::Encoding),
                    };
                }
                proof {
                    assert(scan_member(data@, suffix@, i as int) == scan_member(
                        data@,
                        suffix@,
                        i + 1,
                    ));
                }
            },
            None => {
                proof {
                    assert(scan_member(data@, suffix@, i as int) == -2);
                }
                return Err(TableError::MalformedContainer);
            },
        }
        i = i + 1;
    }
    proof {
        assert(scan_member(data@, suffix@, n as int) == -1);
    }
    Ok(None)
}

/// Whether the events are exactly what the cursor yields one after the
/// other, leading from position `from` to position `to` of the text.
pub open spec fn events_lead(s: Seq<char>, evs: Seq<XmlEvent>, from: int, to: int) -> bool
    decreases evs.len(),
{
    if evs.len() == 0 {
        to == from
    } else {
        exists|np: int|
            #[trigger] crate::xmltok::cursor_step(s, from, Ok(evs[0]), np) && events_lead(
                s,
                evs.subrange(1, evs.len() as int),
                np,
                to,
            )
    }
}

proof fn lemma_events_lead_push(
    s: Seq<char>,
    evs: Seq<XmlEvent>,
    from: int,
    mid: int,
    e: XmlEvent,
    to: int,
)
    requires
        events_lead(s, evs, from, mid),
        crate::xmltok::cursor_step(s, mid, Ok(e), to),
    ensures
        events_lead(s, evs.push(e), from, to),
    decreases evs.len(),
{
    if evs.len() == 0 {
        assert(evs.push(e)[0] == e);
        assert(evs.push(e).subrange(1, 1) =~= Seq::<XmlEvent>::empty());
        assert(crate::xmltok::cursor_step(s, from, Ok(e), to));
        assert(events_lead(s, evs.push(e).subrange(1, 1), to, to));
    } else {
        let np = choose|np: int|
            #[trigger] crate::xmltok::cursor_step(s, from, Ok(evs[0]), np) && events_lead(
                s,
                evs.subrange(1, evs.len() as int),
                np,
                mid,
            );
        lemma_events_lead_push(s, evs.subrange(1, evs.len() as int), np, mid, e, to);
        assert(evs.push(e).subrange(1, (evs.len() + 1) as int) =~= evs.subrange(
            1,
            evs.len() as int,
        ).push(e));
        assert(evs.push(e)[0] == evs[0]);
        assert(crate::xmltok::cursor_step(s, from, Ok(evs.push(e)[0]), np) && events_lead(
            s,
            evs.push(e).subrange(1, evs.push(e).len() as int),
            np,
            to,
        ));
    }
}

/// Runs the XML cursor over a member's text and collects every event up
/// to the end of the input, exactly as the cursor's grammar yields them
/// (`events_lead`); a reader error carries its message.
pub fn collect_events(chars: Vec<char>) -> (r: Result<Vec<XmlEvent>, String>)
    ensures
        r matches Ok(evs) ==> events_lead(chars@, evs@, 0, chars@.len() as int),
{
    let mut cur = XmlCursor::new(chars);
    let mut events: Vec<XmlEvent> = Vec::new();
    let mut done = false;
    let ghost s = cur.chars@;
    while !done
        invariant
            cur.wf(),
            cur.chars@ == s,
            events_lead(s, events@, 0, cur.pos as int),
            done ==> cur.pos >= s.len(),
        decreases cur.chars@.len() - cur.pos + (if done {
            0int
        } else {
            1int
        }),
    {
        let ghost p0 = cur.pos as int;
        let ghost evs0 = events@;
        match cur.next_event() {
            Ok(e) => {
                match e {
                    XmlEvent::Eof => {
                        done = true;
                    },
                    _ => {
                        let ghost ge = e;
                        events.push(e);
                        proof {
                            lemma_events_lead_push(s, evs0, 0, p0, ge, cur.pos as int);
                        }
                    },
                }
            },
            Err(m) => {
                return Err(m);
            },
        }
    }
    proof {
        assert(cur.pos as int == s.len());
        assert(events_lead(s, events@, 0, s.len() as int));
    }
    Ok(events)
}

/// Decodes an office-open workbook: the shared strings, then the first
/// worksheet, then merge resolution and rectangular padding.  Every row
/// of the result has exactly the header's width.  A missing shared-string
/// table is an empty one; a missing worksheet is fatal.  Each failure
/// names its cause: bytes that do not open or a member whose name cannot
/// be read are a malformed container, an absent worksheet is the missing
/// part, a member that does not read as UTF-8 text is an encoding
/// failure, and XML the reader cannot walk is malformed.
/// The shared-string table the archive's contents dictate: empty when
/// the shared-strings member is absent, and otherwise the shared pass
/// over the events of the member's text.
pub open spec fn xlsx_shared_of(data: Seq<u8>, shared: Seq<Seq<char>>) -> bool {
    let shared_at = scan_member(data, "xl/sharedStrings.xml"@, 0);
    if shared_at == -1 {
        shared == Seq::<Seq<char>>::empty()
    } else if shared_at >= 0 {
        match zip_text_of(data, shared_at) {
            Some(st) => exists|sevs: Seq<XmlEvent>|
                #[trigger] events_lead(st, sevs, 0, st.len() as int) && shared == shared_scan(
                    sevs,
                ).strings,
            None => false,
        }
    } else {
        false
    }
}

proof fn lemma_shared_of_witness(
    data: Seq<u8>,
    st: Seq<char>,
    evs: Seq<XmlEvent>,
    shared: Seq<Seq<char>>,
)
    requires
        scan_member(data, "xl/sharedStrings.xml"@, 0) >= 0,
        zip_text_of(data, scan_member(data, "xl/sharedStrings.xml"@, 0)) == Some(st),
        events_lead(st, evs, 0, st.len() as int),
        shared == shared_scan(evs).strings,
    ensures
        xlsx_shared_of(data, shared),
{
    let j = scan_member(data, "xl/sharedStrings.xml"@, 0);
    match zip_text_of(data, j) {
        Some(st2) => {
            assert(st2 == st);
            assert(events_lead(st2, evs, 0, st2.len() as int));
            assert(exists|sevs: Seq<XmlEvent>|
                #[trigger] events_lead(st2, sevs, 0, st2.len() as int) && shared == shared_scan(
                    sevs,
                ).strings);
        },
        None => {
            assert(false);
        },
    }
}

proof fn lemma_xlsx_ok_witness(
    data: Seq<u8>,
    text: Seq<char>,
    evs: Seq<XmlEvent>,
    shared: Seq<Seq<char>>,
    t0: Vec<String>,
    t1: Vec<Vec<String>>,
)
    requires
        scan_member(data, "xl/worksheets/sheet1.xml"@, 0) >= 0,
        zip_text_of(data, scan_member(data, "xl/worksheets/sheet1.xml"@, 0)) == Some(text),
        events_lead(text, evs, 0, text.len() as int),
        xlsx_shared_of(data, shared),
        (row_cells(t0), cells_view(t1@)) == sheet_table_spec(evs, shared),
    ensures
        match zip_text_of(data, scan_member(data, "xl/worksheets/sheet1.xml"@, 0)) {
            Some(txt) => exists|evs2: Seq<XmlEvent>, sh2: Seq<Seq<char>>|
                #![trigger events_lead(txt, evs2, 0, txt.len() as int), xlsx_shared_of(data, sh2)]
                events_lead(txt, evs2, 0, txt.len() as int) && xlsx_shared_of(data, sh2) && (
                row_cells(t0),
                cells_view(t1@),
                ) == sheet_table_spec(evs2, sh2),
            None => false,
        },
{
    match zip_text_of(data, scan_member(data, "xl/worksheets/sheet1.xml"@, 0)) {
        Some(txt) => {
            assert(txt == text);
            assert(events_lead(txt, evs, 0, txt.len() as int));
            assert(exists|evs2: Seq<XmlEvent>, sh2: Seq<Seq<char>>|
                #![trigger events_lead(txt, evs2, 0, txt.len() as int), xlsx_shared_of(data, sh2)]
                events_lead(txt, evs2, 0, txt.len() as int) && xlsx_shared_of(data, sh2) && (
                row_cells(t0),
                cells_view(t1@),
                ) == sheet_table_spec(evs2, sh2));
        },
        None => {
            assert(false);
        },
    }
}

proof fn lemma_ods_ok_witness(
    data: Seq<u8>,
    text: Seq<char>,
    evs: Seq<XmlEvent>,
    t0: Vec<String>,
    t1: Vec<Vec<String>>,
)
    requires
        scan_member(data, "content.xml"@, 0) >= 0,
        zip_text_of(data, scan_member(data, "content.xml"@, 0)) == Some(text),
        events_lead(text, evs, 0, text.len() as int),
        (row_cells(t0), cells_view(t1@)) == ods_table_spec(evs),
    ensures
        match zip_text_of(data, scan_member(data, "content.xml"@, 0)) {
            Some(txt) => exists|evs2: Seq<XmlEvent>|
                #[trigger] events_lead(txt, evs2, 0, txt.len() as int) && (
                row_cells(t0),
                cells_view(t1@),
                ) == ods_table_spec(evs2),
            None => false,
        },
{
    match zip_text_of(data, scan_member(data, "content.xml"@, 0)) {
        Some(txt) => {
            assert(txt == text);
            assert(events_lead(txt, evs, 0, txt.len() as int));
            assert(exists|evs2: Seq<XmlEvent>|
                #[trigger] events_lead(txt, evs2, 0, txt.len() as int) && (
                row_cells(t0),
                cells_view(t1@),
                ) == ods_table_spec(evs2));
        },
        None => {
            assert(false);
        },
    }
}

/// What the office-open decoder owes on `data`: a table only from bytes
/// that open with a readable, UTF-8 worksheet member — and then exactly
/// the worksheet pipeline's table (`sheet_table_spec`) over the events
/// of that member's text and the archive's shared strings, every row as
/// wide as the header; and each failure tied to its cause over the
/// archive's named contents.
pub open spec fn xlsx_outcome(
    data: Seq<u8>,
    r: Result<(Vec<String>, Vec<Vec<String>>), TableError>,
) -> bool {
    let shared_at = scan_member(data, "xl/sharedStrings.xml"@, 0);
    let sheet_at = scan_member(data, "xl/worksheets/sheet1.xml"@, 0);
    match r {
        Ok(t) => zip_ok(data) && sheet_at >= 0 && (match zip_text_of(data, sheet_at) {
            Some(text) => exists|evs: Seq<XmlEvent>, shared: Seq<Seq<char>>|
                #![trigger events_lead(text, evs, 0, text.len() as int), xlsx_shared_of(data, shared)]
                events_lead(text, evs, 0, text.len() as int) && xlsx_shared_of(data, shared) && (
                row_cells(t.0),
                cells_view(t.1@),
                ) == sheet_table_spec(evs, shared),
            None => false,
        }) && forall|i: int|
            0 <= i < t.1@.len() ==> (#[trigger] t.1@[i])@.len() == t.0@.len(),
        Err(e) => match e {
            TableError::MalformedContainer => !zip_ok(data) || shared_at == -2 || (shared_at
                != -2 && sheet_at == -2),
            TableError::MissingPart => zip_ok(data) && sheet_at == -1,
            TableError::Encoding => zip_ok(data) && ((shared_at >= 0 && zip_text_of(
                data,
                shared_at,
            ) is None) || (sheet_at >= 0 && zip_text_of(data, sheet_at) is None)),
            TableError::MalformedXml(_) => zip_ok(data),
            _ => false,
        },
    }
}

#[verifier::rlimit(100)]
pub fn convert_xlsx_to_vec(data: Vec<u8>) -> (r: Result<(Vec<String>, Vec<Vec<String>>),
    TableError,
>)
    ensures
        xlsx_outcome(data@, r),
{
    match zip_open_len(&data) {
        Some(_) => {},
        None => {
            return Err(TableError::MalformedContainer);
        },
    }
    let shared: Vec<String> = match read_zip_file(&data, "xl/sharedStrings.xml") {
        Ok(Some(chars)) => {
            let ghost st = chars@;
            match collect_events(chars) {
                Ok(events) => {
                    let sh = shared_from_events(&events);
                    proof {
                        lemma_shared_of_witness(data@, st, events@, row_cells(sh));
                    }
                    sh
                },
                Err(m) => {
                    return Err(TableError::MalformedXml(m));
                },
            }
        },
        Ok(None) => {
            let sh: Vec<String> = Vec::new();
            proof {
                assert(row_cells(sh) =~= Seq::<Seq<char>>::empty());
                assert(xlsx_shared_of(data@, row_cells(sh)));
            }
            sh
        },
        Err(e) => {
            return Err(e);
        },
    };
    let sheet_chars = match read_zip_file(&data, "xl/worksheets/sheet1.xml") {
        Ok(Some(chars)) => chars,
        Ok(None) => {
            return Err(TableError::MissingPart);
        },
        Err(e) => {
            return Err(e);
        },
    };
    let ghost sheet_text = sheet_chars@;
    let events = match collect_events(sheet_chars) {
        Ok(events) => events,
        Err(m) => {
            return Err(TableError::MalformedXml(m));
        },
    };
    let (columns, body) = assemble_sheet_table(&events, &shared);
    proof {
        lemma_xlsx_ok_witness(
            data@,
            sheet_text,
            events@,
            row_cells(shared),
            columns,
            body,
        );
    }
    Ok((columns, body))
}

/// Decodes an open-document spreadsheet: the single content stream's
/// rows, padded rectangular.  Every row of the result has exactly the
/// header's width.  Each failure names its cause: bytes that do not open
/// or a member whose name cannot be read are a malformed container, an
/// absent content stream is the missing part, one that does not read as
/// UTF-8 text is an encoding failure, and XML the reader cannot walk is
/// malformed.
/// What the open-document decoder owes on `data`: a table only from
/// bytes that open with a readable, UTF-8 content member — and then
/// exactly the content pipeline's table (`ods_table_spec`) over the
/// events of that member's text, every row as wide as the header; and
/// each failure tied to its cause over the archive's named contents.
pub open spec fn ods_outcome(
    data: Seq<u8>,
    r: Result<(Vec<String>, Vec<Vec<String>>), TableError>,
) -> bool {
    let content_at = scan_member(data, "content.xml"@, 0);
    match r {
        Ok(t) => zip_ok(data) && content_at >= 0 && (match zip_text_of(data, content_at) {
            Some(text) => exists|evs: Seq<XmlEvent>|
                #[trigger] events_lead(text, evs, 0, text.len() as int) && (
                row_cells(t.0),
                cells_view(t.1@),
                ) == ods_table_spec(evs),
            None => false,
        }) && forall|i: int|
            0 <= i < t.1@.len() ==> (#[trigger] t.1@[i])@.len() == t.0@.len(),
        Err(e) => match e {
            TableError::MalformedContainer => !zip_ok(data) || content_at == -2,
            TableError::MissingPart => zip_ok(data) && content_at == -1,
            TableError::Encoding => zip_ok(data) && content_at >= 0 && zip_text_of(
                data,
                content_at,
            ) is None,
            TableError::MalformedXml(_) => zip_ok(data),
            _ => false,
        },
    }
}

#[verifier::rlimit(100)]
pub fn convert_ods_to_vec(data: Vec<u8>) -> (r: Result<(Vec<String>, Vec<Vec<String>>),
    TableError,
>)
    ensures
        ods_outcome(data@, r),
{
    match zip_open_len(&data) {
        Some(_) => {},
        None => {
            return Err(TableError::MalformedContainer);
        },
    }
    let content = match read_zip_file(&data, "content.xml") {
        Ok(Some(chars)) => chars,
        Ok(None) => {
            return Err(TableError::MissingPart);
        },
        Err(e) => {
            return Err(e);
        },
    };
    let ghost content_text = content@;
    let events = match collect_events(content) {
        Ok(events) => events,
        Err(m) => {
            return Err(TableError::MalformedXml(m));
        },
    };
    let (columns, body) = assemble_ods_table(&events);
    proof {
        lemma_ods_ok_witness(data@, content_text, events@, columns, body);
    }
    Ok((columns, body))
}

} // verus!
