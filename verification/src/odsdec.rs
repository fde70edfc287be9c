//! The open-document content decoder: one pass over XML events.
//!
//! A `<table:table-row>` start resets the open row; a `<table:table-cell>`
//! start captures the cell's `office:value-type`, `office:value` and
//! `office:date-value` attributes and starts collecting text.  When the
//! cell closes, the value resolves in priority order: a date-value
//! attribute formats as a date; a date-typed cell formats its text as a
//! date; a float-typed cell with a value attribute runs that attribute
//! through the serial-date normalizer; anything else keeps its trimmed
//! text.  A row is kept only when it holds at least one cell.

use vstd::prelude::*;
use crate::grid::{cells_view, finish_table, rect_spec, row_cells, split_spec};
use crate::serial::{ods_date_spec, ods_float_spec, format_ods_date, format_excel_float_as_date};
use crate::text::{chars_eq_str, chars_to_string, copy_chars, trim_chars, trim_spec};
use crate::xmltok::{attr_lookup, find_attr, XmlEvent};

verus! {

/// What a closed content cell shows, in priority order.
pub open spec fn ods_cell_spec(
    date_attr: Seq<char>,
    vtype: Seq<char>,
    value_attr: Seq<char>,
    text: Seq<char>,
) -> Seq<char> {
    if date_attr.len() > 0 {
        ods_date_spec(date_attr)
    } else if vtype == "date"@ {
        ods_date_spec(text)
    } else if vtype == "float"@ && value_attr.len() > 0 {
        ods_float_spec(value_attr)
    } else {
        trim_spec(text)
    }
}

/// Resolves one closed content cell, exactly as `ods_cell_spec` states it.
pub fn resolve_ods_value(
    date_attr: &Vec<char>,
    vtype: &Vec<char>,
    value_attr: &Vec<char>,
    text: &Vec<char>,
) -> (r: String)
    ensures
        r@ == ods_cell_spec(date_attr@, vtype@, value_attr@, text@),
{
    if date_attr.len() > 0 {
        format_ods_date(date_attr)
    } else if chars_eq_str(vtype, "date") {
        format_ods_date(text)
    } else if chars_eq_str(vtype, "float") && value_attr.len() > 0 {
        format_excel_float_as_date(value_attr)
    } else {
        let t = trim_chars(text);
        chars_to_string(&t)
    }
}

/// The content pass: finished rows, the open row, whether a cell is open,
/// its collected text and its three captured attributes.
pub struct OdsScan {
    pub grid: Seq<Seq<Seq<char>>>,
    pub row: Seq<Seq<char>>,
    pub in_cell: bool,
    pub text: Seq<char>,
    pub vtype: Seq<char>,
    pub value_attr: Seq<char>,
    pub date_attr: Seq<char>,
}

/// One event of the content pass.
pub open spec fn ods_step(st: OdsScan, e: XmlEvent) -> OdsScan {
    match e {
        XmlEvent::Start { name, attrs } => {
            if name@ == "table:table-row"@ {
                OdsScan { row: Seq::empty(), ..st }
            } else if name@ == "table:table-cell"@ {
                OdsScan {
                    in_cell: true,
                    text: Seq::empty(),
                    vtype: match attr_lookup(attrs@, "office:value-type"@) {
                        Some(v) => v,
                        None => Seq::empty(),
                    },
                    value_attr: match attr_lookup(attrs@, "office:value"@) {
                        Some(v) => v,
                        None => Seq::empty(),
                    },
                    date_attr: match attr_lookup(attrs@, "office:date-value"@) {
                        Some(v) => v,
                        None => Seq::empty(),
                    },
                    ..st
                }
            } else {
                st
            }
        },
        XmlEvent::Text { text } => {
            if st.in_cell {
                OdsScan { text: st.text + text@, ..st }
            } else {
                st
            }
        },
        XmlEvent::End { name } => {
            if name@ == "table:table-cell"@ {
                OdsScan {
                    in_cell: false,
                    row: st.row.push(
                        ods_cell_spec(st.date_attr, st.vtype, st.value_attr, st.text),
                    ),
                    ..st
                }
            } else if name@ == "table:table-row"@ {
                if st.row.len() > 0 {
                    OdsScan { grid: st.grid.push(st.row), ..st }
                } else {
                    st
                }
            } else {
                st
            }
        },
        _ => st,
    }
}

/// The content pass over a whole event stream.
pub open spec fn ods_scan(events: Seq<XmlEvent>) -> OdsScan
    decreases events.len(),
{
    if events.len() == 0 {
        OdsScan {
            grid: Seq::empty(),
            row: Seq::empty(),
            in_cell: false,
            text: Seq::empty(),
            vtype: Seq::empty(),
            value_attr: Seq::empty(),
            date_attr: Seq::empty(),
        }
    } else {
        ods_step(ods_scan(events.drop_last()), events.last())
    }
}

/// Runs the content pass over an event stream, exactly as `ods_scan`
/// states it.
#[verifier::loop_isolation(false)]
pub fn ods_from_events(events: &Vec<XmlEvent>) -> (r: Vec<Vec<String>>)
    ensures
        cells_view(r@) == ods_scan(events@).grid,
{
    let n = events.len();
    let mut rows: Vec<Vec<String>> = Vec::new();
    let mut cur_row: Vec<String> = Vec::new();
    let mut in_cell = false;
    let mut text: Vec<char> = Vec::new();
    let mut vtype: Vec<char> = Vec::new();
    let mut value_attr: Vec<char> = Vec::new();
    let mut date_attr: Vec<char> = Vec::new();
    let mut i: usize = 0;
    proof {
        assert(cells_view(rows@) =~= Seq::<Seq<Seq<char>>>::empty());
        assert(row_cells(cur_row) =~= Seq::<Seq<char>>::empty());
    }
    while i < n
        invariant
            0 <= i <= n,
            ods_scan(events@.take(i as int)) == (OdsScan {
                grid: cells_view(rows@),
                row: row_cells(cur_row),
                in_cell: in_cell,
                text: text@,
                vtype: vtype@,
                value_attr: value_attr@,
                date_attr: date_attr@,
            }),
        decreases n - i,
    {
        proof {
            assert(events@.take(i + 1).drop_last() =~= events@.take(i as int));
            assert(events@.take(i + 1).last() == events@[i as int]);
        }
        let ghost pre = ods_scan(events@.take(i as int));
        match &events[i] {
            XmlEvent::Start { name, attrs } => {
                if chars_eq_str(name, "table:table-row") {
                    cur_row = Vec::new();
                    proof {
                        assert(row_cells(cur_row) =~= Seq::<Seq<char>>::empty());
                    }
                } else if chars_eq_str(name, "table:table-cell") {
                    in_cell = true;
                    text = Vec::new();
                    vtype = match find_attr(attrs, "office:value-type") {
                        Some(v) => copy_chars(v),
                        None => Vec::new(),
                    };
                    value_attr = match find_attr(attrs, "office:value") {
                        Some(v) => copy_chars(v),
                        None => Vec::new(),
                    };
                    date_attr = match find_attr(attrs, "office:date-value") {
                        Some(v) => copy_chars(v),
                        None => Vec::new(),
                    };
                }
            },
            XmlEvent::Text { text: t } => {
                if in_cell {
                    let ghost gc = text@;
                    let m = t.len();
                    let mut k: usize = 0;
                    while k < m
                        invariant
                            0 <= k <= m,
                            m == t@.len(),
                            text@ =~= gc + t@.take(k as int),
                        decreases m - k,
                    {
                        text.push(t[k]);
                        assert(text@ =~= gc + t@.take(k + 1));
                        k = k + 1;
                    }
                    proof {
                        assert(t@.take(m as int) =~= t@);
                    }
                }
            },
            XmlEvent::End { name } => {
                if chars_eq_str(name, "table:table-cell") {
                    in_cell = false;
                    let v = resolve_ods_value(&date_attr, &vtype, &value_attr, &text);
                    let ghost gr = row_cells(cur_row);
                    cur_row.push(v);
                    proof {
                        assert(row_cells(cur_row) =~= gr.push(
                            ods_cell_spec(pre.date_attr, pre.vtype, pre.value_attr, pre.text),
                        ));
                    }
                } else if chars_eq_str(name, "table:table-row") {
                    if cur_row.len() > 0 {
                        let keep = clone_row(&cur_row);
                        let ghost gg = cells_view(rows@);
                        rows.push(keep);
                        proof {
                            assert(cells_view(rows@) =~= gg.push(pre.row));
                        }
                    }
                }
            },
            _ => {},
        }
        i = i + 1;
    }
    proof {
        assert(events@.take(n as int) =~= events@);
    }
    rows
}

/// A fresh copy of a row of cells.
fn clone_row(row: &Vec<String>) -> (r: Vec<String>)
    ensures
        row_cells(r) == row_cells(*row),
        r@.len() == row@.len(),
{
    let n = row.len();
    let mut r: Vec<String> = Vec::new();
    let mut i: usize = 0;
    while i < n
        invariant
            0 <= i <= n,
            n == row@.len(),
            r@.len() == i,
            forall|k: int| 0 <= k < i ==> (#[trigger] r@[k])@ == row@[k]@,
        decreases n - i,
    {
        let s = row[i].clone();
        r.push(s);
        i = i + 1;
    }
    proof {
        assert forall|k: int| 0 <= k < n implies row_cells(r)[k] == row_cells(*row)[k] by {
            assert(row_cells(r)[k] == r@[k]@);
        }
        assert(row_cells(r) =~= row_cells(*row));
    }
    r
}


/// The whole table a content stream's events decode to: the content
/// pass, then rectangular padding, then the header split.
pub open spec fn ods_table_spec(events: Seq<XmlEvent>) -> (Seq<Seq<char>>, Seq<Seq<Seq<char>>>) {
    split_spec(rect_spec(ods_scan(events).grid))
}

/// Assembles the content table from its events, exactly as
/// `ods_table_spec` states it; every data row is exactly as wide as the
/// header.
pub fn assemble_ods_table(events: &Vec<XmlEvent>) -> (r: (Vec<String>, Vec<Vec<String>>))
    ensures
        (row_cells(r.0), cells_view(r.1@)) == ods_table_spec(events@),
        forall|i: int| 0 <= i < r.1@.len() ==> (#[trigger] r.1@[i])@.len() == r.0@.len(),
{
    let rows = ods_from_events(events);
    finish_table(rows)
}

} // verus!
