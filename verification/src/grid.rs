//! The canonical grid: a vector of rows of string cells, together with the
//! passes that make it rectangular and split off the header row.

use vstd::prelude::*;

verus! {

/// Length of the longest row of the grid.
pub open spec fn max_row_len(g: Seq<Vec<String>>) -> nat
    decreases g.len(),
{
    if g.len() == 0 {
        0
    } else {
        let m = max_row_len(g.drop_last());
        let l = g.last()@.len();
        if l > m {
            l
        } else {
            m
        }
    }
}

proof fn lemma_max_row_len_ge(g: Seq<Vec<String>>, i: int)
    requires
        0 <= i < g.len(),
    ensures
        g[i]@.len() <= max_row_len(g),
    decreases g.len(),
{
    if i < g.len() - 1 {
        lemma_max_row_len_ge(g.drop_last(), i);
    }
}

proof fn lemma_max_row_len_step(g: Seq<Vec<String>>, i: int)
    requires
        0 <= i < g.len(),
    ensures
        max_row_len(g.take(i + 1)) == if g[i]@.len() > max_row_len(g.take(i)) {
            g[i]@.len()
        } else {
            max_row_len(g.take(i))
        },
{
    let t = g.take(i + 1);
    assert(t.drop_last() =~= g.take(i));
    assert(t.last() == g[i]);
}

/// Length of the longest row, computed as one pass over the grid.
pub fn grid_max_cols(rows: &Vec<Vec<String>>) -> (m: usize)
    ensures
        m == max_row_len(rows@),
        forall|i: int| 0 <= i < rows@.len() ==> rows@[i]@.len() <= m,
{
    let n = rows.len();
    let mut m: usize = 0;
    let mut i: usize = 0;
    while i < n
        invariant
            0 <= i <= n,
            n == rows@.len(),
            m == max_row_len(rows@.take(i as int)),
        decreases n - i,
    {
        proof {
            lemma_max_row_len_step(rows@, i as int);
        }
        let l = rows[i].len();
        if l > m {
            m = l;
        }
        i = i + 1;
    }
    assert(rows@.take(n as int) =~= rows@);
    proof {
        assert forall|j: int| 0 <= j < rows@.len() implies rows@[j]@.len() <= m by {
            lemma_max_row_len_ge(rows@, j);
        }
    }
    m
}

/// Pads every row with empty cells up to the width of the widest row, so
/// that the whole grid is rectangular.  Existing cells are untouched.
pub fn rectangularize(rows: &mut Vec<Vec<String>>)
    ensures
        final(rows)@.len() == old(rows)@.len(),
        forall|i: int|
            0 <= i < old(rows)@.len() ==> final(rows)@[i]@.len() == max_row_len(old(rows)@),
        forall|i: int, j: int|
            0 <= i < old(rows)@.len() && 0 <= j < old(rows)@[i]@.len() ==> final(rows)@[i]@[j]
                == old(rows)@[i]@[j],
        forall|i: int, j: int|
            0 <= i < old(rows)@.len() && old(rows)@[i]@.len() <= j < max_row_len(old(rows)@)
                ==> final(rows)@[i]@[j]@ == Seq::<char>::empty(),
{
    let ghost g0 = rows@;
    let m = grid_max_cols(rows);
    let n = rows.len();
    let mut i: usize = 0;
    while i < n
        invariant
            0 <= i <= n,
            n == g0.len(),
            rows@.len() == n,
            m == max_row_len(g0),
            forall|k: int| 0 <= k < g0.len() ==> g0[k]@.len() <= m,
            forall|k: int| i <= k < n ==> rows@[k] == g0[k],
            forall|k: int| 0 <= k < i ==> rows@[k]@.len() == m,
            forall|k: int, j: int|
                0 <= k < i && 0 <= j < g0[k]@.len() ==> rows@[k]@[j] == g0[k]@[j],
            forall|k: int, j: int|
                0 <= k < i && g0[k]@.len() <= j < m ==> rows@[k]@[j]@ == Seq::<char>::empty(),
        decreases n - i,
    {
        let ghost gi = rows@;
        let ghost r0 = rows@[i as int]@;
        assert(rows@[i as int] == g0[i as int]);
        assert(r0.len() <= m);
        let mut padded = 0usize;
        while rows[i].len() < m
            invariant
                0 <= i < n,
                n == rows@.len() == gi.len(),
                r0.len() <= m,
                rows@[i as int]@.len() == r0.len() + padded,
                rows@[i as int]@.len() <= m,
                forall|k: int| 0 <= k < n && k != i ==> rows@[k] == gi[k],
                forall|j: int| 0 <= j < r0.len() ==> rows@[i as int]@[j] == r0[j],
                forall|j: int|
                    r0.len() <= j < r0.len() + padded ==> rows@[i as int]@[j]@ == Seq::<
                        char,
                    >::empty(),
            decreases m - rows@[i as int]@.len(),
        {
            let row = &mut rows[i];
            row.push(String::new());
            padded = padded + 1;
        }
        proof {
            assert(r0 == g0[i as int]@);
            assert(rows@[i as int]@.len() == m);
            assert forall|k: int| 0 <= k < i + 1 implies rows@[k]@.len() == m by {
                if k < i {
                    assert(rows@[k] == gi[k]);
                    assert(gi[k]@.len() == m);
                }
            }
            assert forall|k: int, j: int|
                0 <= k < i + 1 && 0 <= j < g0[k]@.len() implies rows@[k]@[j] == g0[k]@[j] by {
                if k < i {
                    assert(rows@[k] == gi[k]);
                }
            }
            assert forall|k: int, j: int|
                0 <= k < i + 1 && g0[k]@.len() <= j < m implies rows@[k]@[j]@ == Seq::<
                char,
            >::empty() by {
                if k < i {
                    assert(rows@[k] == gi[k]);
                }
            }
        }
        i = i + 1;
    }
}

/// Merge flattening is skipped outright on sheets with at least this many
/// rows: propagating a region costs time proportional to its area, and a
/// large sheet keeps its independently read cells instead.
pub const MERGE_ROW_LIMIT: usize = 10000;

/// The cells of one row, as character sequences.
pub open spec fn row_cells(r: Vec<String>) -> Seq<Seq<char>> {
    r@.map_values(|c: String| c@)
}

/// The whole grid as nested character sequences.
pub open spec fn cells_view(g: Seq<Vec<String>>) -> Seq<Seq<Seq<char>>> {
    g.map_values(|r: Vec<String>| row_cells(r))
}

/// `rc` grown with empty cells to width `w`, or kept as it is when already
/// that wide.
pub open spec fn padded_cells(rc: Seq<Seq<char>>, w: int) -> Seq<Seq<char>> {
    if rc.len() >= w {
        rc
    } else {
        Seq::new(w as nat, |j: int| if j < rc.len() { rc[j] } else { Seq::<char>::empty() })
    }
}

/// One row of the merge pass: the covered span `c1..=c2` cleared to empty
/// cells, except the origin cell of the region's origin row.
pub open spec fn cleared_row(rc: Seq<Seq<char>>, origin_row: bool, c1: int, c2: int) -> Seq<
    Seq<char>,
> {
    Seq::new(
        rc.len(),
        |c: int|
            if c1 <= c <= c2 && !(origin_row && c == c1) {
                Seq::<char>::empty()
            } else {
                rc[c]
            },
    )
}

/// One merged region `(r1, c1)..=(r2, c2)` resolved over the grid: rows the
/// region touches are first widened to reach column `c2`; then, unless the
/// origin column lies beyond the origin row even after widening, every
/// covered cell except the origin is cleared.  The origin cell keeps its
/// value; a region whose first row lies beyond the grid changes nothing.
pub open spec fn apply_region_spec(
    v: Seq<Seq<Seq<char>>>,
    r1: int,
    c1: int,
    r2: int,
    c2: int,
) -> Seq<Seq<Seq<char>>> {
    if r1 >= v.len() {
        v
    } else {
        let rlast = if r2 < v.len() - 1 {
            r2
        } else {
            v.len() - 1
        };
        let padded = Seq::new(
            v.len(),
            |r: int|
                if r1 <= r <= rlast {
                    padded_cells(v[r], c2 + 1)
                } else {
                    v[r]
                },
        );
        if c1 >= padded[r1].len() {
            padded
        } else {
            Seq::new(
                v.len(),
                |r: int|
                    if r1 <= r <= rlast {
                        cleared_row(padded[r], r == r1, c1, c2)
                    } else {
                        padded[r]
                    },
            )
        }
    }
}

/// All regions resolved in order.
pub open spec fn apply_regions_spec(
    v: Seq<Seq<Seq<char>>>,
    regs: Seq<(usize, usize, usize, usize)>,
) -> Seq<Seq<Seq<char>>>
    decreases regs.len(),
{
    if regs.len() == 0 {
        v
    } else {
        let rg = regs.last();
        apply_region_spec(
            apply_regions_spec(v, regs.drop_last()),
            rg.0 as int,
            rg.1 as int,
            rg.2 as int,
            rg.3 as int,
        )
    }
}

/// The merge pass over a whole sheet: all regions resolved in order, or the
/// grid untouched when it has `limit` rows or more.
pub open spec fn merge_resolve_spec(
    v: Seq<Seq<Seq<char>>>,
    regs: Seq<(usize, usize, usize, usize)>,
    limit: int,
) -> Seq<Seq<Seq<char>>> {
    if v.len() >= limit {
        v
    } else {
        apply_regions_spec(v, regs)
    }
}

/// Widens `row` with empty cells up to width `w` if it is narrower.
fn pad_row_to(row: &mut Vec<String>, w: usize)
    ensures
        row_cells(*final(row)) == padded_cells(row_cells(*old(row)), w as int),
{
    let ghost rc0 = row_cells(*old(row));
    let mut added: usize = 0;
    while row.len() < w
        invariant
            row@.len() == rc0.len() + added,
            rc0.len() >= w ==> added == 0,
            rc0.len() < w ==> added <= w - rc0.len(),
            forall|j: int| 0 <= j < rc0.len() ==> row@[j]@ == rc0[j],
            forall|j: int| rc0.len() <= j < row@.len() ==> row@[j]@ == Seq::<char>::empty(),
        decreases w - row@.len(),
    {
        row.push(String::new());
        added = added + 1;
    }
    proof {
        let rc1 = row_cells(*row);
        if rc0.len() >= w {
            assert(rc1 =~= rc0);
        } else {
            assert(row@.len() == w);
            assert forall|j: int| 0 <= j < w implies rc1[j] == padded_cells(rc0, w as int)[j] by {
                assert(rc1[j] == row@[j]@);
            }
            assert(rc1 =~= padded_cells(rc0, w as int));
        }
    }
}

/// Clears the covered span `c1..=c2` of one row to empty cells, leaving the
/// origin cell alone when this row is the region's origin row; columns the
/// row does not reach are left to the caller's widening pass.
fn clear_covered_row(row: &mut Vec<String>, origin_row: bool, c1: usize, c2: usize)
    requires
        c2 < usize::MAX,
    ensures
        final(row)@.len() == old(row)@.len(),
        forall|j: int|
            c1 <= j <= c2 && !(origin_row && j == c1) && j < old(row)@.len()
                ==> (#[trigger] final(row)@[j])@ == Seq::<char>::empty(),
        forall|j: int|
            0 <= j < old(row)@.len() && !(c1 <= j <= c2) ==> final(row)@[j] == old(row)@[j],
        origin_row && c1 < old(row)@.len() ==> final(row)@[c1 as int] == old(row)@[c1 as int],
{
    let ghost orig = row@;
    let rowlen = row.len();
    let mut c: usize = c1;
    while c < rowlen && c <= c2
        invariant
            c1 <= c,
            c <= c2 + 1 || c == c1,
            c2 < usize::MAX,
            rowlen == row@.len(),
            row@.len() == orig.len(),
            forall|j: int|
                c1 <= j < c && !(origin_row && j == c1) && j < rowlen
                    ==> (#[trigger] row@[j])@ == Seq::<char>::empty(),
            forall|j: int| 0 <= j < rowlen && !(c1 <= j < c) ==> row@[j] == orig[j],
            origin_row && c1 < rowlen ==> row@[c1 as int] == orig[c1 as int],
        decreases rowlen - c,
    {
        if !(origin_row && c == c1) {
            row[c] = String::new();
        }
        c = c + 1;
    }
}

proof fn lemma_row_cells_eq(a: Vec<String>, b: Seq<Seq<char>>)
    requires
        a@.len() == b.len(),
        forall|j: int| 0 <= j < a@.len() ==> (#[trigger] a@[j])@ == b[j],
    ensures
        row_cells(a) == b,
{
    assert(row_cells(a) =~= b);
}

/// Resolves one merged region in place, exactly as `apply_region_spec`
/// states it.
#[verifier::loop_isolation(false)]
fn apply_one_region(rows: &mut Vec<Vec<String>>, r1: usize, c1: usize, r2: usize, c2: usize)
    requires
        c2 < usize::MAX,
    ensures
        final(rows)@.len() == old(rows)@.len(),
        cells_view(final(rows)@) == apply_region_spec(
            cells_view(old(rows)@),
            r1 as int,
            c1 as int,
            r2 as int,
            c2 as int,
        ),
{
    let ghost v0 = cells_view(old(rows)@);
    let n = rows.len();
    if r1 >= n {
        return ;
    }
    let rlast: usize = if r2 < n - 1 {
        r2
    } else {
        n - 1
    };
    let ghost padded = Seq::new(
        v0.len(),
        |r: int|
            if r1 <= r <= rlast {
                padded_cells(v0[r], c2 + 1)
            } else {
                v0[r]
            },
    );
    let mut r: usize = r1;
    while r <= rlast
        invariant
            r1 <= r,
            r <= rlast + 1 || r == r1,
            rlast < n,
            c2 < usize::MAX,
            n == rows@.len() == v0.len(),
            padded == Seq::new(
                v0.len(),
                |k: int|
                    if r1 <= k <= rlast {
                        padded_cells(v0[k], c2 + 1)
                    } else {
                        v0[k]
                    },
            ),
            forall|k: int|
                0 <= k < n ==> row_cells(#[trigger] rows@[k]) == if r1 <= k < r {
                    padded[k]
                } else {
                    v0[k]
                },
        decreases rlast + 1 - r,
    {
        let row = &mut rows[r];
        pad_row_to(row, c2 + 1);
        proof {
            assert(row_cells(rows@[r as int]) == padded[r as int]);
        }
        r = r + 1;
    }
    proof {
        assert(cells_view(rows@) =~= padded);
    }
    if c1 >= rows[r1].len() {
        return ;
    }
    let ghost cleared = Seq::new(
        v0.len(),
        |k: int|
            if r1 <= k <= rlast {
                cleared_row(padded[k], k == r1 as int, c1 as int, c2 as int)
            } else {
                padded[k]
            },
    );
    let mut r: usize = r1;
    while r <= rlast
        invariant
            r1 <= r,
            r <= rlast + 1 || r == r1,
            rlast < n,
            c2 < usize::MAX,
            n == rows@.len() == v0.len() == padded.len() == cleared.len(),
            forall|k: int| 0 <= k < n ==> padded[k].len() == cleared[k].len(),
            forall|k: int|
                0 <= k < n ==> row_cells(#[trigger] rows@[k]) == if r1 <= k < r {
                    cleared[k]
                } else {
                    padded[k]
                },
        decreases rlast + 1 - r,
    {
        let ghost before = rows@;
        let row = &mut rows[r];
        clear_covered_row(row, r == r1, c1, c2);
        proof {
            let prow = before[r as int];
            assert(row_cells(prow) == padded[r as int]);
            assert(rows@[r as int]@.len() == prow@.len());
            let ghost newrow = rows@[r as int];
            assert(cleared[r as int] == cleared_row(
                padded[r as int],
                r as int == r1 as int,
                c1 as int,
                c2 as int,
            ));
            assert forall|j: int| 0 <= j < newrow@.len() implies (#[trigger] newrow@[j])@
                == cleared[r as int][j] by {
                assert(prow@[j]@ == row_cells(prow)[j]);
                assert(cleared[r as int][j] == (if c1 <= j <= c2 && !(r == r1 && j == c1) {
                    Seq::<char>::empty()
                } else {
                    padded[r as int][j]
                }));
                if c1 <= j <= c2 && !(r == r1 && j == c1) {
                    assert(newrow@[j]@ == Seq::<char>::empty());
                } else {
                    assert(newrow@[j] == prow@[j]);
                }
            }
            lemma_row_cells_eq(newrow, cleared[r as int]);
            assert forall|k: int| 0 <= k < n && k != r implies row_cells(#[trigger] rows@[k])
                == row_cells(before[k]) by {
                assert(rows@[k] == before[k]);
            }
        }
        r = r + 1;
    }
    proof {
        assert(cells_view(rows@) =~= cleared);
    }
}

/// Resolves every collected region over the grid, in order, unless the
/// sheet has `MERGE_ROW_LIMIT` rows or more, in which case the grid is left
/// untouched.
pub fn apply_merges(rows: &mut Vec<Vec<String>>, regions: &Vec<(usize, usize, usize, usize)>)
    requires
        forall|i: int| 0 <= i < regions@.len() ==> (#[trigger] regions@[i]).3 < usize::MAX,
    ensures
        final(rows)@.len() == old(rows)@.len(),
        cells_view(final(rows)@) == merge_resolve_spec(
            cells_view(old(rows)@),
            regions@,
            MERGE_ROW_LIMIT as int,
        ),
{
    let ghost v0 = cells_view(old(rows)@);
    if rows.len() >= MERGE_ROW_LIMIT {
        return ;
    }
    let m = regions.len();
    let mut i: usize = 0;
    while i < m
        invariant
            0 <= i <= m,
            m == regions@.len(),
            rows@.len() == v0.len(),
            forall|k: int| 0 <= k < regions@.len() ==> (#[trigger] regions@[k]).3 < usize::MAX,
            cells_view(rows@) == apply_regions_spec(v0, regions@.take(i as int)),
        decreases m - i,
    {
        let rg = regions[i];
        apply_one_region(rows, rg.0, rg.1, rg.2, rg.3);
        proof {
            let t = regions@.take(i + 1);
            assert(t.drop_last() =~= regions@.take(i as int));
            assert(t.last() == regions@[i as int]);
        }
        i = i + 1;
    }
    proof {
        assert(regions@.take(m as int) =~= regions@);
    }
}

/// Splits the first row off as the column headers; an empty grid gives an
/// empty header list and no data rows.
pub fn split_header_rows(rows: Vec<Vec<String>>) -> (r: (Vec<String>, Vec<Vec<String>>))
    ensures
        rows@.len() == 0 ==> r.0@.len() == 0 && r.1@.len() == 0,
        rows@.len() > 0 ==> r.0 == rows@[0] && r.1@ == rows@.subrange(1, rows@.len() as int),
{
    let mut rows = rows;
    if rows.len() == 0 {
        (Vec::new(), Vec::new())
    } else {
        let ghost g0 = rows@;
        let columns = rows.remove(0);
        assert(rows@ =~= g0.subrange(1, g0.len() as int));
        (columns, rows)
    }
}


/// Width of the widest row, at the level of character sequences.
pub open spec fn max_width(g: Seq<Seq<Seq<char>>>) -> nat
    decreases g.len(),
{
    if g.len() == 0 {
        0
    } else {
        let m = max_width(g.drop_last());
        let l = g.last().len();
        if l > m {
            l
        } else {
            m
        }
    }
}

pub proof fn lemma_max_width_eq(g: Seq<Vec<String>>)
    ensures
        max_width(cells_view(g)) == max_row_len(g),
    decreases g.len(),
{
    if g.len() > 0 {
        lemma_max_width_eq(g.drop_last());
        assert(cells_view(g).drop_last() =~= cells_view(g.drop_last()));
        assert(cells_view(g).last() == row_cells(g.last()));
    }
}

/// The whole grid padded rectangular: every row grown with empty cells to
/// the width of the widest row.
pub open spec fn rect_spec(g: Seq<Seq<Seq<char>>>) -> Seq<Seq<Seq<char>>> {
    Seq::new(g.len(), |i: int| padded_cells(g[i], max_width(g) as int))
}

/// The header split: the first row as the columns, the rest as the data
/// rows; an empty grid splits into nothing at all.
pub open spec fn split_spec(g: Seq<Seq<Seq<char>>>) -> (Seq<Seq<char>>, Seq<Seq<Seq<char>>>) {
    if g.len() == 0 {
        (Seq::empty(), Seq::empty())
    } else {
        (g[0], g.subrange(1, g.len() as int))
    }
}

/// Pads the grid rectangular and splits off the header, exactly as
/// `split_spec` over `rect_spec` states it; every returned data row is
/// exactly as wide as the header.
pub fn finish_table(rows: Vec<Vec<String>>) -> (r: (Vec<String>, Vec<Vec<String>>))
    ensures
        (row_cells(r.0), cells_view(r.1@)) == split_spec(rect_spec(cells_view(rows@))),
        forall|i: int| 0 <= i < r.1@.len() ==> (#[trigger] r.1@[i])@.len() == r.0@.len(),
{
    let mut rows = rows;
    let ghost v0 = rows@;
    let ghost g0 = cells_view(v0);
    rectangularize(&mut rows);
    proof {
        lemma_max_width_eq(v0);
        assert forall|i: int| 0 <= i < rows@.len() implies row_cells(#[trigger] rows@[i])
            == rect_spec(g0)[i] by {
            assert(g0[i] == row_cells(v0[i]));
            lemma_max_row_len_ge(v0, i);
            assert(row_cells(rows@[i]).len() == max_row_len(v0));
            assert(g0[i].len() <= max_width(g0));
            assert forall|j: int| 0 <= j < row_cells(rows@[i]).len() implies row_cells(
                rows@[i],
            )[j] == padded_cells(g0[i], max_width(g0) as int)[j] by {
                assert(row_cells(rows@[i])[j] == rows@[i]@[j]@);
                if j < v0[i]@.len() {
                    assert(rows@[i]@[j] == v0[i]@[j]);
                    assert(g0[i][j] == v0[i]@[j]@);
                } else {
                    assert(rows@[i]@[j]@ == Seq::<char>::empty());
                }
            }
            assert(row_cells(rows@[i]) =~= padded_cells(g0[i], max_width(g0) as int));
        }
        assert(cells_view(rows@) =~= rect_spec(g0));
    }
    let ghost rect = cells_view(rows@);
    let (columns, body) = split_header_rows(rows);
    proof {
        if rect.len() == 0 {
            assert(row_cells(columns) =~= Seq::<Seq<char>>::empty());
            assert(cells_view(body@) =~= Seq::<Seq<Seq<char>>>::empty());
        } else {
            assert(row_cells(columns) == rect[0]);
            assert(cells_view(body@) =~= rect.subrange(1, rect.len() as int));
        }
        assert forall|i: int| 0 <= i < body@.len() implies (#[trigger] body@[i])@.len()
            == columns@.len() by {
            assert(cells_view(body@)[i] == row_cells(body@[i]));
        }
    }
    (columns, body)
}

} // verus!
