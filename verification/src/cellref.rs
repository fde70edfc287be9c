//! `A1`-style cell references and `A1:C3`-style merge ranges.
//!
//! A reference is read by splitting its characters into the run of ASCII
//! letters (the column, base 26, `A` = 1) and the run of ASCII digits (the
//! row, 1-based); both results are returned zero-based.  A reference with no
//! letters at all, or a column value too large for `usize`, yields no column
//! and the caller falls back to its sequential position.

use vstd::prelude::*;
use crate::text::{is_digit_char, digit_char, parse_usize_spec, parse_usize_chars, str_to_chars};

verus! {

pub open spec fn is_ascii_alpha(c: char) -> bool {
    (0x41 <= c as u32 && c as u32 <= 0x5A) || (0x61 <= c as u32 && c as u32 <= 0x7A)
}

pub fn ascii_alpha(c: char) -> (b: bool)
    ensures
        b == is_ascii_alpha(c),
{
    let u = c as u32;
    (0x41 <= u && u <= 0x5A) || (0x61 <= u && u <= 0x7A)
}

/// The ASCII letters of `s`, in order.
pub open spec fn letters_of(s: Seq<char>) -> Seq<char>
    decreases s.len(),
{
    if s.len() == 0 {
        Seq::empty()
    } else if is_ascii_alpha(s.last()) {
        letters_of(s.drop_last()).push(s.last())
    } else {
        letters_of(s.drop_last())
    }
}

/// The ASCII digits of `s`, in order.
pub open spec fn digits_of(s: Seq<char>) -> Seq<char>
    decreases s.len(),
{
    if s.len() == 0 {
        Seq::empty()
    } else if is_digit_char(s.last()) {
        digits_of(s.drop_last()).push(s.last())
    } else {
        digits_of(s.drop_last())
    }
}

/// Base-26 value of a letter run, `A` = 1; a lower-case letter contributes
/// its distance from `A` as well, as the reference reader has always read it.
pub open spec fn letters_value(s: Seq<char>) -> nat
    decreases s.len(),
{
    if s.len() == 0 {
        0
    } else {
        letters_value(s.drop_last()) * 26 + (s.last() as u32 - 0x40) as nat
    }
}

proof fn lemma_letters_value_mono(s: Seq<char>, i: int)
    requires
        0 <= i <= s.len(),
        forall|k: int| 0 <= k < s.len() ==> is_ascii_alpha(s[k]),
    ensures
        letters_value(s) >= letters_value(s.subrange(0, i)),
    decreases s.len(),
{
    if i < s.len() {
        let t = s.drop_last();
        lemma_letters_value_mono(t, i);
        assert(t.subrange(0, i) =~= s.subrange(0, i));
        assert(is_ascii_alpha(s.last()));
        assert(letters_value(s) >= letters_value(t) * 26);
    } else {
        assert(s.subrange(0, s.len() as int) =~= s);
    }
}

proof fn lemma_letters_value_step(s: Seq<char>, i: int)
    requires
        0 <= i < s.len(),
    ensures
        letters_value(s.subrange(0, i + 1)) == letters_value(s.subrange(0, i)) * 26 + (
        s[i] as u32 - 0x40) as nat,
{
    let t = s.subrange(0, i + 1);
    assert(t.drop_last() =~= s.subrange(0, i));
    assert(t.last() == s[i]);
}

/// The zero-based column of a reference: `None` when the reference holds no
/// letters or the column value does not fit.
pub open spec fn ref_col_spec(s: Seq<char>) -> Option<nat> {
    let ls = letters_of(s);
    if ls.len() == 0 || letters_value(ls) > usize::MAX {
        None
    } else {
        Some((letters_value(ls) - 1) as nat)
    }
}

/// The zero-based row of a reference: digits read as a 1-based row number,
/// an unreadable or absent number counting as row 1.
pub open spec fn ref_row_spec(s: Seq<char>) -> nat {
    let ds = digits_of(s);
    match parse_usize_spec(ds) {
        Some(v) => if v == 0 {
            0
        } else {
            (v - 1) as nat
        },
        None => 0,
    }
}

proof fn lemma_letters_digits_step(s: Seq<char>, i: int)
    requires
        0 <= i < s.len(),
    ensures
        letters_of(s.subrange(0, i + 1)) == if is_ascii_alpha(s[i]) {
            letters_of(s.subrange(0, i)).push(s[i])
        } else {
            letters_of(s.subrange(0, i))
        },
        digits_of(s.subrange(0, i + 1)) == if is_digit_char(s[i]) {
            digits_of(s.subrange(0, i)).push(s[i])
        } else {
            digits_of(s.subrange(0, i))
        },
{
    let t = s.subrange(0, i + 1);
    assert(t.drop_last() =~= s.subrange(0, i));
    assert(t.last() == s[i]);
}

/// Splits a reference's characters into its letter and digit runs.
fn split_ref_chars(v: &Vec<char>) -> (r: (Vec<char>, Vec<char>))
    ensures
        r.0@ == letters_of(v@),
        r.1@ == digits_of(v@),
{
    let n = v.len();
    let mut ls: Vec<char> = Vec::new();
    let mut ds: Vec<char> = Vec::new();
    let mut i: usize = 0;
    while i < n
        invariant
            0 <= i <= n,
            n == v@.len(),
            ls@ == letters_of(v@.subrange(0, i as int)),
            ds@ == digits_of(v@.subrange(0, i as int)),
        decreases n - i,
    {
        proof {
            lemma_letters_digits_step(v@, i as int);
        }
        let c = v[i];
        if ascii_alpha(c) {
            ls.push(c);
        } else if digit_char(c) {
            ds.push(c);
        }
        i = i + 1;
    }
    assert(v@.subrange(0, n as int) =~= v@);
    (ls, ds)
}

/// Base-26 evaluation of a letter run; `None` when the value exceeds `usize`.
fn letters_to_col(ls: &Vec<char>) -> (r: Option<usize>)
    requires
        forall|k: int| 0 <= k < ls@.len() ==> is_ascii_alpha(ls@[k]),
    ensures
        match r {
            Some(n) => letters_value(ls@) == n as nat,
            None => letters_value(ls@) > usize::MAX,
        },
{
    let n = ls.len();
    let mut acc: u128 = 0;
    let mut i: usize = 0;
    while i < n
        invariant
            0 <= i <= n,
            n == ls@.len(),
            forall|k: int| 0 <= k < ls@.len() ==> is_ascii_alpha(ls@[k]),
            acc <= usize::MAX,
            acc as nat == letters_value(ls@.subrange(0, i as int)),
        decreases n - i,
    {
        proof {
            lemma_letters_value_step(ls@, i as int);
        }
        let c = ls[i];
        let d: u128 = ((c as u32) - 0x40) as u128;
        let next: u128 = acc * 26 + d;
        if next > usize::MAX as u128 {
            proof {
                lemma_letters_value_mono(ls@, i + 1);
            }
            return None;
        }
        acc = next;
        i = i + 1;
    }
    assert(ls@.subrange(0, n as int) =~= ls@);
    Some(acc as usize)
}

/// Reads one cell reference: zero-based `(column, row)`, the column absent
/// when the reference carries no readable letter run.
pub fn parse_cell_ref(v: &Vec<char>) -> (r: (Option<usize>, usize))
    ensures
        match r.0 {
            Some(c) => ref_col_spec(v@) == Some(c as nat),
            None => ref_col_spec(v@) is None,
        },
        r.1 as nat == ref_row_spec(v@),
{
    let (ls, ds) = split_ref_chars(v);
    proof {
        lemma_letters_are_alpha(v@);
    }
    let col = if ls.len() == 0 {
        None
    } else {
        match letters_to_col(&ls) {
            Some(n) => Some(n - 1),
            None => None,
        }
    };
    let row = match parse_usize_chars(&ds) {
        Some(n) => if n == 0 {
            0
        } else {
            n - 1
        },
        None => 0,
    };
    proof {
        if ls@.len() > 0 {
            lemma_letters_value_pos(ls@);
        }
    }
    (col, row)
}

pub proof fn lemma_letters_are_alpha(s: Seq<char>)
    ensures
        forall|k: int| 0 <= k < letters_of(s).len() ==> is_ascii_alpha(#[trigger] letters_of(s)[k]),
    decreases s.len(),
{
    if s.len() > 0 {
        lemma_letters_are_alpha(s.drop_last());
        let lo = letters_of(s);
        let ld = letters_of(s.drop_last());
        if is_ascii_alpha(s.last()) {
            assert forall|k: int| 0 <= k < lo.len() implies is_ascii_alpha(#[trigger] lo[k]) by {
                if k < ld.len() {
                    assert(lo[k] == ld[k]);
                } else {
                    assert(lo[k] == s.last());
                }
            }
        }
    }
}

pub proof fn lemma_letters_value_pos(s: Seq<char>)
    requires
        s.len() > 0,
        forall|k: int| 0 <= k < s.len() ==> is_ascii_alpha(s[k]),
    ensures
        letters_value(s) >= 1,
{
    assert(is_ascii_alpha(s.last()));
}

/// Index of the first colon of `s`, or `-1` when it has none.
pub open spec fn first_colon(s: Seq<char>) -> int
    decreases s.len(),
{
    if s.len() == 0 {
        -1
    } else if s[0] == ':' {
        0
    } else {
        let r = first_colon(s.subrange(1, s.len() as int));
        if r < 0 {
            -1
        } else {
            r + 1
        }
    }
}

proof fn lemma_first_colon_at(s: Seq<char>, i: int)
    requires
        0 <= i <= s.len(),
        forall|k: int| 0 <= k < i ==> s[k] != ':',
        i < s.len() ==> s[i] == ':',
    ensures
        first_colon(s) == if i < s.len() {
            i
        } else {
            -1
        },
    decreases i,
{
    if i == 0 {
    } else {
        let t = s.subrange(1, s.len() as int);
        lemma_first_colon_at(t, i - 1);
    }
}

/// What the merge-range reader yields on `s`: the two references around the
/// single colon, as zero-based `(row1, col1, row2, col2)`.
pub open spec fn merge_range_spec(s: Seq<char>) -> Option<(nat, nat, nat, nat)> {
    let p = first_colon(s);
    if p < 0 {
        None
    } else {
        let a = s.subrange(0, p);
        let b = s.subrange(p + 1, s.len() as int);
        if first_colon(b) >= 0 {
            None
        } else {
            match (ref_col_spec(a), ref_col_spec(b)) {
                (Some(c1), Some(c2)) => Some((ref_row_spec(a), c1, ref_row_spec(b), c2)),
                _ => None,
            }
        }
    }
}

/// Reads a merge region reference such as `A1:C3` into the zero-based
/// inclusive rectangle `(row1, col1, row2, col2)`.
pub fn parse_merge_range(range: &str) -> (r: Option<(usize, usize, usize, usize)>)
    ensures
        match r {
            Some(t) => merge_range_spec(range@) == Some(
                (t.0 as nat, t.1 as nat, t.2 as nat, t.3 as nat),
            ),
            None => merge_range_spec(range@) is None,
        },
{
    let v = str_to_chars(range);
    let n = v.len();
    let mut p: usize = 0;
    while p < n && v[p] != ':'
        invariant
            0 <= p <= n,
            n == v@.len(),
            v@ == range@,
            forall|k: int| 0 <= k < p ==> v@[k] != ':',
        decreases n - p,
    {
        p = p + 1;
    }
    proof {
        lemma_first_colon_at(v@, p as int);
    }
    if p == n {
        return None;
    }
    let mut a: Vec<char> = Vec::new();
    let mut i: usize = 0;
    while i < p
        invariant
            0 <= i <= p < n,
            n == v@.len(),
            a@ =~= v@.subrange(0, i as int),
        decreases p - i,
    {
        a.push(v[i]);
        assert(a@ =~= v@.subrange(0, i + 1 as int));
        i = i + 1;
    }
    let mut b: Vec<char> = Vec::new();
    let mut j: usize = p + 1;
    while j < n
        invariant
            p < j <= n,
            n == v@.len(),
            b@ =~= v@.subrange(p + 1 as int, j as int),
        decreases n - j,
    {
        b.push(v[j]);
        assert(b@ =~= v@.subrange(p + 1 as int, j + 1 as int));
        j = j + 1;
    }
    let mut q: usize = 0;
    let bn = b.len();
    while q < bn && b[q] != ':'
        invariant
            0 <= q <= bn,
            bn == b@.len(),
            forall|k: int| 0 <= k < q ==> b@[k] != ':',
        decreases bn - q,
    {
        q = q + 1;
    }
    proof {
        lemma_first_colon_at(b@, q as int);
    }
    if q < bn {
        return None;
    }
    let (c1_opt, r1) = parse_cell_ref(&a);
    let (c2_opt, r2) = parse_cell_ref(&b);
    match (c1_opt, c2_opt) {
        (Some(c1), Some(c2)) => Some((r1, c1, r2, c2)),
        _ => None,
    }
}

} // verus!
