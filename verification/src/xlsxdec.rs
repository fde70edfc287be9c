//! The office-open worksheet decoder: two passes over XML events.
//!
//! The first pass collects the shared-string table: each `<si>` element's
//! accumulated text, in document order.  The second pass assembles the
//! grid: `<row>` elements track the current row (their 1-based `r`
//! attribute, or the row after the previous one when absent), `<c>`
//! elements track the current column (the letters of their `r` attribute,
//! or the next column when absent or unreadable), and on a cell's close
//! the accumulated text resolves — through the shared-string table when
//! the cell's `t` attribute is `s`, through the serial-date normalizer
//! otherwise.  Merge regions are collected during the pass and resolved
//! afterwards; the grid is then padded rectangular.

use vstd::prelude::*;
use crate::grid::{
    apply_merges, cells_view, finish_table, merge_resolve_spec, rect_spec, row_cells, split_spec,
    MERGE_ROW_LIMIT,
};
use crate::cellref::{merge_range_spec, parse_cell_ref, parse_merge_range, ref_col_spec};
use crate::serial::{excel_value_spec, format_excel_value};
use crate::text::{chars_to_string, parse_usize_chars, parse_usize_spec, chars_eq_str};
use crate::xmltok::{attr_lookup, find_attr, XmlEvent};

verus! {

/// The shared-string pass: the finished strings and the text accumulated
/// since the last `<si>` opened.
pub struct SharedScan {
    pub strings: Seq<Seq<char>>,
    pub cur: Seq<char>,
}

/// One event of the shared-string pass.
pub open spec fn shared_step(st: SharedScan, e: XmlEvent) -> SharedScan {
    match e {
        XmlEvent::Start { name, attrs } => {
            if name@ == "si"@ {
                SharedScan { cur: Seq::empty(), ..st }
            } else {
                st
            }
        },
        XmlEvent::Text { text } => SharedScan { cur: st.cur + text@, ..st },
        XmlEvent::End { name } => {
            if name@ == "si"@ {
                SharedScan { strings: st.strings.push(st.cur), ..st }
            } else {
                st
            }
        },
        _ => st,
    }
}

/// The shared-string pass over a whole event stream.
pub open spec fn shared_scan(events: Seq<XmlEvent>) -> SharedScan
    decreases events.len(),
{
    if events.len() == 0 {
        SharedScan { strings: Seq::empty(), cur: Seq::empty() }
    } else {
        shared_step(shared_scan(events.drop_last()), events.last())
    }
}

/// Builds the shared-string table from an event stream, exactly as
/// `shared_scan` states it.
#[verifier::loop_isolation(false)]
pub fn shared_from_events(events: &Vec<XmlEvent>) -> (r: Vec<String>)
    ensures
        row_cells(r) == shared_scan(events@).strings,
{
    let n = events.len();
    let mut strings: Vec<String> = Vec::new();
    let mut cur: Vec<char> = Vec::new();
    let mut i: usize = 0;
    proof {
        assert(row_cells(strings) =~= Seq::<Seq<char>>::empty());
    }
    while i < n
        invariant
            0 <= i <= n,
            shared_scan(events@.take(i as int)) == (SharedScan {
                strings: row_cells(strings),
                cur: cur@,
            }),
        decreases n - i,
    {
        proof {
            assert(events@.take(i + 1).drop_last() =~= events@.take(i as int));
            assert(events@.take(i + 1).last() == events@[i as int]);
        }
        let ghost pre = shared_scan(events@.take(i as int));
        match &events[i] {
            XmlEvent::Start { name, attrs } => {
                if chars_eq_str(name, "si") {
                    cur = Vec::new();
                }
            },
            XmlEvent::Text { text } => {
                let ghost gc = cur@;
                let mut k: usize = 0;
                let m = text.len();
                while k < m
                    invariant
                        0 <= k <= m,
                        m == text@.len(),
                        cur@ =~= gc + text@.take(k as int),
                    decreases m - k,
                {
                    cur.push(text[k]);
                    assert(cur@ =~= gc + text@.take(k + 1));
                    k = k + 1;
                }
                proof {
                    assert(text@.take(m as int) =~= text@);
                }
            },
            XmlEvent::End { name } => {
                if chars_eq_str(name, "si") {
                    let s = chars_to_string(&cur);
                    let ghost gs = row_cells(strings);
                    strings.push(s);
                    proof {
                        assert(row_cells(strings) =~= gs.push(pre.cur));
                    }
                }
            },
            _ => {},
        }
        i = i + 1;
    }
    proof {
        assert(events@.take(n as int) =~= events@);
    }
    strings
}

/// What a closed cell shows: a shared-string cell (`t="s"`) resolves its
/// text as an index into the shared-string table, an unreadable index
/// counting as index zero and an out-of-range index as the empty string;
/// any other cell goes through the serial-date normalizer.
pub open spec fn cell_value_spec(
    ctype: Seq<char>,
    val: Seq<char>,
    shared: Seq<Seq<char>>,
) -> Seq<char> {
    if ctype == "s"@ {
        let idx = match parse_usize_spec(val) {
            Some(v) => v as int,
            None => 0,
        };
        if 0 <= idx < shared.len() {
            shared[idx]
        } else {
            Seq::empty()
        }
    } else {
        excel_value_spec(val)
    }
}

/// Resolves one closed cell, exactly as `cell_value_spec` states it.
pub fn resolve_cell_value(ctype: &Vec<char>, val: &Vec<char>, shared: &Vec<String>) -> (r: String)
    ensures
        r@ == cell_value_spec(ctype@, val@, row_cells(*shared)),
{
    if chars_eq_str(ctype, "s") {
        let idx: usize = match parse_usize_chars(val) {
            Some(v) => v,
            None => 0,
        };
        if idx < shared.len() {
            let s = shared[idx].clone();
            proof {
                assert(row_cells(*shared)[idx as int] == shared@[idx as int]@);
            }
            s
        } else {
            String::new()
        }
    } else {
        format_excel_value(val)
    }
}

/// The sheet pass: the grid built so far, the merge regions collected so
/// far, the current row and column, and the open cell's accumulated text
/// and type tag.
pub struct SheetScan {
    pub grid: Seq<Seq<Seq<char>>>,
    pub merges: Seq<(usize, usize, usize, usize)>,
    pub row: int,
    pub next_row: int,
    pub col: int,
    pub val: Seq<char>,
    pub ctype: Seq<char>,
}

/// `g` grown with empty rows until row `upto` exists.
pub open spec fn grown_rows(g: Seq<Seq<Seq<char>>>, upto: int) -> Seq<Seq<Seq<char>>> {
    if g.len() > upto {
        g
    } else {
        g + Seq::new((upto + 1 - g.len()) as nat, |x: int| Seq::<Seq<char>>::empty())
    }
}

/// `r` grown with empty cells until column `upto` exists.
pub open spec fn grown_cells(r: Seq<Seq<char>>, upto: int) -> Seq<Seq<char>> {
    if r.len() > upto {
        r
    } else {
        r + Seq::new((upto + 1 - r.len()) as nat, |x: int| Seq::<char>::empty())
    }
}

/// One event of the sheet pass.
pub open spec fn sheet_step(st: SheetScan, e: XmlEvent, shared: Seq<Seq<char>>) -> SheetScan {
    match e {
        XmlEvent::Start { name, attrs } => {
            if name@ == "row"@ {
                let row = match attr_lookup(attrs@, "r"@) {
                    Some(rv) => match parse_usize_spec(rv) {
                        Some(v) => if v == 0 {
                            0
                        } else {
                            v - 1
                        },
                        None => 0,
                    },
                    None => st.next_row,
                };
                SheetScan {
                    grid: grown_rows(st.grid, row),
                    row: row,
                    next_row: if row < usize::MAX {
                        row + 1
                    } else {
                        row
                    },
                    col: 0,
                    ..st
                }
            } else if name@ == "c"@ {
                let ctype = match attr_lookup(attrs@, "t"@) {
                    Some(v) => v,
                    None => Seq::empty(),
                };
                let col = match attr_lookup(attrs@, "r"@) {
                    Some(rv) => match ref_col_spec(rv) {
                        Some(c) => c as int,
                        None => st.col,
                    },
                    None => st.col,
                };
                SheetScan { val: Seq::empty(), ctype: ctype, col: col, ..st }
            } else if name@ == "mergeCell"@ {
                match attr_lookup(attrs@, "ref"@) {
                    Some(rv) => match merge_range_spec(rv) {
                        Some(t) => SheetScan {
                            merges: st.merges.push(
                                (t.0 as usize, t.1 as usize, t.2 as usize, t.3 as usize),
                            ),
                            ..st
                        },
                        None => st,
                    },
                    None => st,
                }
            } else {
                st
            }
        },
        XmlEvent::Empty { name, attrs } => {
            if name@ == "mergeCell"@ {
                match attr_lookup(attrs@, "ref"@) {
                    Some(rv) => match merge_range_spec(rv) {
                        Some(t) => SheetScan {
                            merges: st.merges.push(
                                (t.0 as usize, t.1 as usize, t.2 as usize, t.3 as usize),
                            ),
                            ..st
                        },
                        None => st,
                    },
                    None => st,
                }
            } else {
                st
            }
        },
        XmlEvent::Text { text } => SheetScan { val: st.val + text@, ..st },
        XmlEvent::End { name } => {
            if name@ == "c"@ {
                let g1 = grown_rows(st.grid, st.row);
                let g2 = g1.update(st.row, grown_cells(g1[st.row], st.col));
                let v = cell_value_spec(st.ctype, st.val, shared);
                let g3 = g2.update(st.row, g2[st.row].update(st.col, v));
                SheetScan {
                    grid: g3,
                    col: if st.col < usize::MAX {
                        st.col + 1
                    } else {
                        st.col
                    },
                    ..st
                }
            } else {
                st
            }
        },
        _ => st,
    }
}

/// The sheet pass over a whole event stream, starting from an empty grid
/// at row and column zero.
pub open spec fn sheet_scan(events: Seq<XmlEvent>, shared: Seq<Seq<char>>) -> SheetScan
    decreases events.len(),
{
    if events.len() == 0 {
        SheetScan {
            grid: Seq::empty(),
            merges: Seq::empty(),
            row: 0,
            next_row: 0,
            col: 0,
            val: Seq::empty(),
            ctype: Seq::empty(),
        }
    } else {
        sheet_step(sheet_scan(events.drop_last(), shared), events.last(), shared)
    }
}

/// Appends empty rows until row `upto` exists, exactly as `grown_rows`
/// states it.
#[verifier::loop_isolation(false)]
fn grow_grid(rows: &mut Vec<Vec<String>>, upto: usize)
    ensures
        cells_view(final(rows)@) == grown_rows(cells_view(old(rows)@), upto as int),
        final(rows)@.len() > upto,
{
    let ghost g0 = cells_view(old(rows)@);
    while rows.len() <= upto
        invariant
            cells_view(rows@) == (if rows@.len() > g0.len() {
                g0 + Seq::new((rows@.len() - g0.len()) as nat, |x: int| Seq::<Seq<char>>::empty())
            } else {
                g0
            }),
            rows@.len() >= g0.len(),
            rows@.len() <= upto + 1 || rows@.len() == g0.len(),
        decreases upto + 1 - rows@.len(),
    {
        let ghost gc = cells_view(rows@);
        rows.push(Vec::new());
        proof {
            assert(row_cells(rows@[rows@.len() - 1]) =~= Seq::<Seq<char>>::empty());
            assert(cells_view(rows@) =~= gc.push(Seq::<Seq<char>>::empty()));
            assert(cells_view(rows@) =~= (g0 + Seq::new(
                (rows@.len() - g0.len()) as nat,
                |x: int| Seq::<Seq<char>>::empty(),
            )));
        }
    }
    proof {
        if rows@.len() > g0.len() {
            assert(cells_view(rows@) =~= grown_rows(g0, upto as int));
        } else {
            assert(cells_view(rows@) =~= grown_rows(g0, upto as int));
        }
    }
}

/// Appends empty cells until column `upto` exists, exactly as
/// `grown_cells` states it.
#[verifier::loop_isolation(false)]
fn grow_row(row: &mut Vec<String>, upto: usize)
    ensures
        row_cells(*final(row)) == grown_cells(row_cells(*old(row)), upto as int),
        final(row)@.len() > upto,
{
    let ghost r0 = row_cells(*old(row));
    while row.len() <= upto
        invariant
            row_cells(*row) == (if row@.len() > r0.len() {
                r0 + Seq::new((row@.len() - r0.len()) as nat, |x: int| Seq::<char>::empty())
            } else {
                r0
            }),
            row@.len() >= r0.len(),
            row@.len() <= upto + 1 || row@.len() == r0.len(),
        decreases upto + 1 - row@.len(),
    {
        let ghost rc = row_cells(*row);
        row.push(String::new());
        proof {
            assert(row_cells(*row) =~= rc.push(Seq::<char>::empty()));
            assert(row_cells(*row) =~= (r0 + Seq::new(
                (row@.len() - r0.len()) as nat,
                |x: int| Seq::<char>::empty(),
            )));
        }
    }
    proof {
        if row@.len() > r0.len() {
            assert(row_cells(*row) =~= grown_cells(r0, upto as int));
        } else {
            assert(row_cells(*row) =~= grown_cells(r0, upto as int));
        }
    }
}

/// Runs the sheet pass over an event stream, exactly as `sheet_scan`
/// states it: the grid as read, and the merge regions collected.
#[verifier::loop_isolation(false)]
pub fn sheet_from_events(events: &Vec<XmlEvent>, shared: &Vec<String>) -> (r: (
    Vec<Vec<String>>,
    Vec<(usize, usize, usize, usize)>,
))
    ensures
        cells_view(r.0@) == sheet_scan(events@, row_cells(*shared)).grid,
        r.1@ == sheet_scan(events@, row_cells(*shared)).merges,
{
    let ghost sh = row_cells(*shared);
    let n = events.len();
    let mut rows: Vec<Vec<String>> = Vec::new();
    let mut merges: Vec<(usize, usize, usize, usize)> = Vec::new();
    let mut cur_row: usize = 0;
    let mut next_row: usize = 0;
    let mut cur_col: usize = 0;
    let mut cur_val: Vec<char> = Vec::new();
    let mut cur_type: Vec<char> = Vec::new();
    let mut i: usize = 0;
    proof {
        assert(cells_view(rows@) =~= Seq::<Seq<Seq<char>>>::empty());
    }
    while i < n
        invariant
            0 <= i <= n,
            sheet_scan(events@.take(i as int), sh) == (SheetScan {
                grid: cells_view(rows@),
                merges: merges@,
                row: cur_row as int,
                next_row: next_row as int,
                col: cur_col as int,
                val: cur_val@,
                ctype: cur_type@,
            }),
        decreases n - i,
    {
        proof {
            assert(events@.take(i + 1).drop_last() =~= events@.take(i as int));
            assert(events@.take(i + 1).last() == events@[i as int]);
        }
        let ghost pre = sheet_scan(events@.take(i as int), sh);
        match &events[i] {
            XmlEvent::Start { name, attrs } => {
                if chars_eq_str(name, "row") {
                    let row: usize = match find_attr(attrs, "r") {
                        Some(rv) => match parse_usize_chars(rv) {
                            Some(v) => if v == 0 {
                                0
                            } else {
                                v - 1
                            },
                            None => 0,
                        },
                        None => next_row,
                    };
                    grow_grid(&mut rows, row);
                    cur_row = row;
                    next_row = if row < usize::MAX {
                        row + 1
                    } else {
                        row
                    };
                    cur_col = 0;
                } else if chars_eq_str(name, "c") {
                    cur_val = Vec::new();
                    cur_type = match find_attr(attrs, "t") {
                        Some(v) => crate::text::copy_chars(v),
                        None => Vec::new(),
                    };
                    match find_attr(attrs, "r") {
                        Some(rv) => {
                            let (c, _row) = parse_cell_ref(rv);
                            match c {
                                Some(cv) => {
                                    cur_col = cv;
                                },
                                None => {},
                            }
                        },
                        None => {},
                    }
                } else if chars_eq_str(name, "mergeCell") {
                    match find_attr(attrs, "ref") {
                        Some(rv) => {
                            let s = chars_to_string(rv);
                            match parse_merge_range(s.as_str()) {
                                Some(t) => {
                                    merges.push(t);
                                },
                                None => {},
                            }
                        },
                        None => {},
                    }
                }
            },
            XmlEvent::Empty { name, attrs } => {
                if chars_eq_str(name, "mergeCell") {
                    match find_attr(attrs, "ref") {
                        Some(rv) => {
                            let s = chars_to_string(rv);
                            match parse_merge_range(s.as_str()) {
                                Some(t) => {
                                    merges.push(t);
                                },
                                None => {},
                            }
                        },
                        None => {},
                    }
                }
            },
            XmlEvent::Text { text } => {
                let ghost gc = cur_val@;
                let m = text.len();
                let mut k: usize = 0;
                while k < m
                    invariant
                        0 <= k <= m,
                        m == text@.len(),
                        cur_val@ =~= gc + text@.take(k as int),
                    decreases m - k,
                {
                    cur_val.push(text[k]);
                    assert(cur_val@ =~= gc + text@.take(k + 1));
                    k = k + 1;
                }
                proof {
                    assert(text@.take(m as int) =~= text@);
                }
            },
            XmlEvent::End { name } => {
                if chars_eq_str(name, "c") {
                    grow_grid(&mut rows, cur_row);
                    let ghost g1 = cells_view(rows@);
                    let ghost before_row = rows@;
                    let row = &mut rows[cur_row];
                    grow_row(row, cur_col);
                    proof {
                        assert(row_cells(before_row[cur_row as int]) == g1[cur_row as int]);
                        assert(cells_view(rows@) =~= g1.update(
                            cur_row as int,
                            grown_cells(g1[cur_row as int], cur_col as int),
                        ));
                    }
                    let ghost g2 = cells_view(rows@);
                    let v = resolve_cell_value(&cur_type, &cur_val, shared);
                    let ghost before2 = rows@;
                    rows[cur_row][cur_col] = v;
                    proof {
                        assert(row_cells(rows@[cur_row as int]) =~= row_cells(
                            before2[cur_row as int],
                        ).update(cur_col as int, cell_value_spec(cur_type@, cur_val@, sh)));
                        assert(cells_view(rows@) =~= g2.update(
                            cur_row as int,
                            g2[cur_row as int].update(
                                cur_col as int,
                                cell_value_spec(cur_type@, cur_val@, sh),
                            ),
                        ));
                    }
                    cur_col = if cur_col < usize::MAX {
                        cur_col + 1
                    } else {
                        cur_col
                    };
                }
            },
            _ => {},
        }
        i = i + 1;
    }
    proof {
        assert(events@.take(n as int) =~= events@);
    }
    (rows, merges)
}


proof fn lemma_ref_col_bound(s: Seq<char>)
    ensures
        match ref_col_spec(s) {
            Some(c) => c < usize::MAX,
            None => true,
        },
{
    let ls = crate::cellref::letters_of(s);
    if ls.len() > 0 {
        crate::cellref::lemma_letters_are_alpha(s);
        crate::cellref::lemma_letters_value_pos(ls);
    }
}

proof fn lemma_merge_range_col_bound(s: Seq<char>)
    ensures
        match merge_range_spec(s) {
            Some(t) => t.1 < usize::MAX && t.3 < usize::MAX,
            None => true,
        },
{
    let p = crate::cellref::first_colon(s);
    if p >= 0 {
        let a = s.subrange(0, p);
        let b = s.subrange(p + 1, s.len() as int);
        lemma_ref_col_bound(a);
        lemma_ref_col_bound(b);
    }
}

proof fn lemma_sheet_merges_bounded(events: Seq<XmlEvent>, sh: Seq<Seq<char>>)
    ensures
        forall|i: int|
            0 <= i < sheet_scan(events, sh).merges.len() ==> (#[trigger] sheet_scan(
                events,
                sh,
            ).merges[i]).3 < usize::MAX,
    decreases events.len(),
{
    if events.len() > 0 {
        lemma_sheet_merges_bounded(events.drop_last(), sh);
        let pre = sheet_scan(events.drop_last(), sh);
        let post = sheet_scan(events, sh);
        match events.last() {
            XmlEvent::Start { name, attrs } => {
                if name@ == "mergeCell"@ {
                    match attr_lookup(attrs@, "ref"@) {
                        Some(rv) => {
                            lemma_merge_range_col_bound(rv);
                        },
                        None => {},
                    }
                }
            },
            XmlEvent::Empty { name, attrs } => {
                if name@ == "mergeCell"@ {
                    match attr_lookup(attrs@, "ref"@) {
                        Some(rv) => {
                            lemma_merge_range_col_bound(rv);
                        },
                        None => {},
                    }
                }
            },
            _ => {},
        }
        assert forall|i: int| 0 <= i < post.merges.len() implies (#[trigger] post.merges[i]).3
            < usize::MAX by {
            if i < pre.merges.len() {
                assert(post.merges[i] == pre.merges[i] || post.merges == pre.merges);
            }
        }
    }
}

/// The whole table a worksheet's events decode to: the sheet pass, then
/// merge resolution under the row limit, then rectangular padding, then
/// the header split.
pub open spec fn sheet_table_spec(events: Seq<XmlEvent>, shared: Seq<Seq<char>>) -> (
    Seq<Seq<char>>,
    Seq<Seq<Seq<char>>>,
) {
    let st = sheet_scan(events, shared);
    split_spec(rect_spec(merge_resolve_spec(st.grid, st.merges, MERGE_ROW_LIMIT as int)))
}

/// Assembles the worksheet table from its events, exactly as
/// `sheet_table_spec` states it; every data row is exactly as wide as
/// the header.
pub fn assemble_sheet_table(events: &Vec<XmlEvent>, shared: &Vec<String>) -> (r: (
    Vec<String>,
    Vec<Vec<String>>,
))
    ensures
        (row_cells(r.0), cells_view(r.1@)) == sheet_table_spec(events@, row_cells(*shared)),
        forall|i: int| 0 <= i < r.1@.len() ==> (#[trigger] r.1@[i])@.len() == r.0@.len(),
{
    let (mut rows, merges) = sheet_from_events(events, shared);
    proof {
        lemma_sheet_merges_bounded(events@, row_cells(*shared));
    }
    apply_merges(&mut rows, &merges);
    finish_table(rows)
}

} // verus!
