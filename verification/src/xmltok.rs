//! A forward-only XML event cursor: start tags with their attributes,
//! self-closing tags, end tags, and trimmed text with the five standard
//! entities and numeric character references resolved.  Its whole
//! grammar is the spec function `cursor_step`.
//!
//! The cursor is tolerant in the ways the spreadsheet decoders need:
//! namespace prefixes are left in the names for the caller to match on,
//! comments, character-data sections, processing instructions and other
//! markup are reported as `Skip` and ignored, white-space-only text is
//! skipped, a malformed attribute is dropped, and a text chunk whose
//! entities cannot be resolved collapses to the empty string.  End-tag
//! names are not matched against their start tags — the decoders key on
//! names alone and never depend on nesting, where a strict reader would
//! reject a mismatched document.  Only markup that never closes is a
//! hard error.

use vstd::prelude::*;
use crate::text::{
    all_digits, digit_char, digit_val, digits_value, is_digit_char, is_space_char, space_char,
    trim_spec, trim_chars,
};

verus! {

/// Index of the first semicolon of `s`, or `-1` when it has none.
pub open spec fn first_semi(s: Seq<char>) -> int
    decreases s.len(),
{
    if s.len() == 0 {
        -1
    } else if s[0] == ';' {
        0
    } else {
        let r = first_semi(s.subrange(1, s.len() as int));
        if r < 0 {
            -1
        } else {
            r + 1
        }
    }
}

proof fn lemma_first_semi_at(s: Seq<char>, i: int)
    requires
        0 <= i <= s.len(),
        forall|k: int| 0 <= k < i ==> s[k] != ';',
        i < s.len() ==> s[i] == ';',
    ensures
        first_semi(s) == if i < s.len() {
            i
        } else {
            -1
        },
    decreases i,
{
    if i > 0 {
        let t = s.subrange(1, s.len() as int);
        lemma_first_semi_at(t, i - 1);
    }
}

/// A hexadecimal digit's value, or 16 for any other character.
pub open spec fn hex_val(c: char) -> nat {
    let u = c as u32;
    if 0x30 <= u && u <= 0x39 {
        (u - 0x30) as nat
    } else if 0x41 <= u && u <= 0x46 {
        (u - 0x41 + 10) as nat
    } else if 0x61 <= u && u <= 0x66 {
        (u - 0x61 + 10) as nat
    } else {
        16
    }
}

pub open spec fn is_hex_char(c: char) -> bool {
    hex_val(c) < 16
}

pub open spec fn all_hex(s: Seq<char>) -> bool {
    forall|i: int| 0 <= i < s.len() ==> is_hex_char(s[i])
}

/// The number a hexadecimal digit string denotes.
pub open spec fn hex_value(s: Seq<char>) -> nat
    decreases s.len(),
{
    if s.len() == 0 {
        0
    } else {
        hex_value(s.subrange(0, s.len() - 1)) * 16 + hex_val(s[s.len() - 1])
    }
}

/// A Unicode scalar value: what a character reference may name.
pub open spec fn valid_scalar(v: nat) -> bool {
    v < 0xD800 || (0xE000 <= v && v <= 0x10FFFF)
}

/// The character with scalar value `v` (meaningful when the value is a
/// valid scalar).
pub open spec fn char_of_code(v: u32) -> char {
    v as char
}

proof fn lemma_char_cast(v: u32, c: char)
    requires
        c as u32 == v,
        v < 0xD800 || (0xE000 <= v && v <= 0x10FFFF),
    ensures
        c == char_of_code(v),
{
}

/// The character an entity body stands for: one of the five named
/// entities, or a decimal or hexadecimal character reference naming a
/// valid scalar.
pub open spec fn entity_char(e: Seq<char>) -> Option<char> {
    if e == seq!['l', 't'] {
        Some('<')
    } else if e == seq!['g', 't'] {
        Some('>')
    } else if e == seq!['a', 'm', 'p'] {
        Some('&')
    } else if e == seq!['a', 'p', 'o', 's'] {
        Some('\'')
    } else if e == seq!['q', 'u', 'o', 't'] {
        Some('"')
    } else if e.len() >= 2 && e[0] == '#' && (e[1] == 'x' || e[1] == 'X') {
        let d = e.subrange(2, e.len() as int);
        if d.len() > 0 && all_hex(d) && hex_value(d) <= 0x10FFFF && valid_scalar(hex_value(d)) {
            Some(char_of_code(hex_value(d) as u32))
        } else {
            None
        }
    } else if e.len() >= 1 && e[0] == '#' {
        let d = e.subrange(1, e.len() as int);
        if d.len() > 0 && all_digits(d) && digits_value(d) <= 0x10FFFF && valid_scalar(
            digits_value(d),
        ) {
            Some(char_of_code(digits_value(d) as u32))
        } else {
            None
        }
    } else {
        None
    }
}

/// `s` with every entity resolved, or nothing when an ampersand run is
/// not a well-formed known entity.
pub open spec fn unescape_spec(s: Seq<char>) -> Option<Seq<char>>
    decreases s.len(),
{
    if s.len() == 0 {
        Some(Seq::empty())
    } else if s[0] != '&' {
        match unescape_spec(s.subrange(1, s.len() as int)) {
            Some(r) => Some(seq![s[0]] + r),
            None => None,
        }
    } else {
        let k = first_semi(s);
        if k < 1 || k >= s.len() {
            None
        } else {
            match entity_char(s.subrange(1, k)) {
                Some(c) => match unescape_spec(s.subrange(k + 1, s.len() as int)) {
                    Some(r) => Some(seq![c] + r),
                    None => None,
                },
                None => None,
            }
        }
    }
}

/// Relies on `char::from_u32`: yields the character with the given scalar
/// value exactly when the value is one (not a surrogate, at most
/// `0x10FFFF`).
#[verifier::external_body]
fn char_from_code(v: u32) -> (r: Option<char>)
    ensures
        match r {
            Some(c) => c as u32 == v,
            None => true,
        },
        (r is Some) == (v < 0xD800 || (0xE000 <= v && v <= 0x10FFFF)),
{
    char::from_u32(v)
}


proof fn lemma_hex_value_take(s: Seq<char>, i: int)
    requires
        0 <= i < s.len(),
    ensures
        hex_value(s.take(i + 1)) == hex_value(s.take(i)) * 16 + hex_val(s[i]),
{
    let t = s.take(i + 1);
    assert(t.subrange(0, t.len() - 1) =~= s.take(i));
    assert(t[t.len() - 1] == s[i]);
}

proof fn lemma_digits_value_take(s: Seq<char>, i: int)
    requires
        0 <= i < s.len(),
    ensures
        digits_value(s.take(i + 1)) == digits_value(s.take(i)) * 10 + digit_val(s[i]),
{
    let t = s.take(i + 1);
    assert(t.subrange(0, t.len() - 1) =~= s.take(i));
    assert(t[t.len() - 1] == s[i]);
}

/// Reads a character reference's digits, decimal or hexadecimal, with
/// saturation just past the largest scalar value.
#[verifier::loop_isolation(false)]
fn scan_code_digits(e: &Vec<char>, from: usize, hex: bool) -> (r: Option<u32>)
    requires
        from <= e@.len(),
    ensures
        ({
            let d = e@.subrange(from as int, e@.len() as int);
            match r {
                Some(v) => d.len() > 0 && (if hex {
                    all_hex(d) && hex_value(d) == v
                } else {
                    all_digits(d) && digits_value(d) == v
                }) && v <= 0x10FFFF,
                None => d.len() == 0 || (if hex {
                    !all_hex(d) || hex_value(d) > 0x10FFFF
                } else {
                    !all_digits(d) || digits_value(d) > 0x10FFFF
                }),
            }
        }),
{
    let ghost d = e@.subrange(from as int, e@.len() as int);
    let n = e.len();
    if from == n {
        return None;
    }
    let mut v: u64 = 0;
    let mut i: usize = from;
    proof {
        assert(d.take(0) =~= Seq::<char>::empty());
    }
    while i < n
        invariant
            from <= i <= n,
            n == e@.len(),
            hex ==> all_hex(d.take(i - from)),
            !hex ==> all_digits(d.take(i - from)),
            v <= 0x10FFFF ==> v == (if hex {
                hex_value(d.take(i - from))
            } else {
                digits_value(d.take(i - from))
            }),
            v > 0x10FFFF ==> v == 0x110000 && (if hex {
                hex_value(d.take(i - from))
            } else {
                digits_value(d.take(i - from))
            }) > 0x10FFFF,
        decreases n - i,
    {
        let c = e[i];
        proof {
            assert(d[i - from] == e@[i as int]);
            if hex {
                lemma_hex_value_take(d, i - from);
            } else {
                lemma_digits_value_take(d, i - from);
            }
        }
        let dv: u64 = if hex {
            let u = c as u32;
            if 0x30 <= u && u <= 0x39 {
                (u - 0x30) as u64
            } else if 0x41 <= u && u <= 0x46 {
                (u - 0x41 + 10) as u64
            } else if 0x61 <= u && u <= 0x66 {
                (u - 0x61 + 10) as u64
            } else {
                return None;
            }
        } else {
            if digit_char(c) {
                ((c as u32) - 0x30) as u64
            } else {
                return None;
            }
        };
        if v <= 0x10FFFF {
            let base: u64 = if hex {
                16
            } else {
                10
            };
            let nv: u64 = v * base + dv;
            if nv > 0x10FFFF {
                v = 0x110000;
            } else {
                v = nv;
            }
        }
        i = i + 1;
    }
    proof {
        assert(d.take(n - from) =~= d);
    }
    if v > 0x10FFFF {
        None
    } else {
        Some(v as u32)
    }
}

/// Decodes one entity body, exactly as `entity_char` states it.
fn entity_decode(e: &Vec<char>) -> (r: Option<char>)
    ensures
        r == entity_char(e@),
{
    let n = e.len();
    if n == 2 && e[0] == 'l' && e[1] == 't' {
        proof {
            assert(e@ =~= seq!['l', 't']);
        }
        return Some('<');
    }
    if n == 2 && e[0] == 'g' && e[1] == 't' {
        proof {
            assert(e@ =~= seq!['g', 't']);
        }
        return Some('>');
    }
    if n == 3 && e[0] == 'a' && e[1] == 'm' && e[2] == 'p' {
        proof {
            assert(e@ =~= seq!['a', 'm', 'p']);
        }
        return Some('&');
    }
    if n == 4 && e[0] == 'a' && e[1] == 'p' && e[2] == 'o' && e[3] == 's' {
        proof {
            assert(e@ =~= seq!['a', 'p', 'o', 's']);
        }
        return Some('\'');
    }
    if n == 4 && e[0] == 'q' && e[1] == 'u' && e[2] == 'o' && e[3] == 't' {
        proof {
            assert(e@ =~= seq!['q', 'u', 'o', 't']);
        }
        return Some('"');
    }
    proof {
        assert(e@ != seq!['l', 't'] && e@ != seq!['g', 't'] && e@ != seq!['a', 'm', 'p'] && e@
            != seq!['a', 'p', 'o', 's'] && e@ != seq!['q', 'u', 'o', 't']) by {
            if e@ == seq!['l', 't'] {
                assert(e@.len() == 2 && e@[0] == 'l' && e@[1] == 't');
            }
            if e@ == seq!['g', 't'] {
                assert(e@.len() == 2 && e@[0] == 'g' && e@[1] == 't');
            }
            if e@ == seq!['a', 'm', 'p'] {
                assert(e@.len() == 3 && e@[0] == 'a' && e@[1] == 'm' && e@[2] == 'p');
            }
            if e@ == seq!['a', 'p', 'o', 's'] {
                assert(e@.len() == 4 && e@[0] == 'a' && e@[1] == 'p' && e@[2] == 'o' && e@[3]
                    == 's');
            }
            if e@ == seq!['q', 'u', 'o', 't'] {
                assert(e@.len() == 4 && e@[0] == 'q' && e@[1] == 'u' && e@[2] == 'o' && e@[3]
                    == 't');
            }
        }
    }
    if n >= 2 && e[0] == '#' && (e[1] == 'x' || e[1] == 'X') {
        match scan_code_digits(e, 2, true) {
            Some(v) => {
                match char_from_code(v) {
                    Some(c) => {
                        proof {
                            lemma_char_cast(v, c);
                        }
                        Some(c)
                    },
                    None => None,
                }
            },
            None => None,
        }
    } else if n >= 1 && e[0] == '#' {
        match scan_code_digits(e, 1, false) {
            Some(v) => {
                match char_from_code(v) {
                    Some(c) => {
                        proof {
                            lemma_char_cast(v, c);
                        }
                        Some(c)
                    },
                    None => None,
                }
            },
            None => None,
        }
    } else {
        None
    }
}

/// Resolves the entities of a text or attribute chunk, exactly as
/// `unescape_spec` states it.
#[verifier::loop_isolation(false)]
pub fn unescape_chars(s: &Vec<char>) -> (r: Option<Vec<char>>)
    ensures
        match r {
            Some(v) => unescape_spec(s@) == Some(v@),
            None => unescape_spec(s@) is None,
        },
{
    let n = s.len();
    let mut out: Vec<char> = Vec::new();
    let mut pos: usize = 0;
    proof {
        assert(s@.subrange(0, n as int) =~= s@);
        assert forall|r: Seq<char>| #[trigger] (Seq::<char>::empty() + r) == r by {
            assert(Seq::<char>::empty() + r =~= r);
        }
    }
    while pos < n
        invariant
            0 <= pos <= n,
            n == s@.len(),
            unescape_spec(s@) == (match unescape_spec(s@.subrange(pos as int, n as int)) {
                Some(rest) => Some(out@ + rest),
                None => None::<Seq<char>>,
            }),
        decreases n - pos,
    {
        let ghost tail = s@.subrange(pos as int, n as int);
        let c = s[pos];
        proof {
            assert(tail[0] == c);
        }
        if c != '&' {
            proof {
                assert(tail.subrange(1, tail.len() as int) =~= s@.subrange(
                    pos + 1,
                    n as int,
                ));
            }
            let ghost gout = out@;
            out.push(c);
            proof {
                match unescape_spec(s@.subrange(pos + 1, n as int)) {
                    Some(rest) => {
                        assert(gout + (seq![c] + rest) =~= out@ + rest);
                    },
                    None => {},
                }
            }
            pos = pos + 1;
        } else {
            let mut k: usize = pos + 1;
            while k < n && s[k] != ';'
                invariant
                    pos + 1 <= k <= n,
                    forall|j: int| pos + 1 <= j < k ==> s@[j] != ';',
                decreases n - k,
            {
                k = k + 1;
            }
            proof {
                assert forall|j: int| 0 <= j < k - pos implies tail[j] != ';' by {
                    assert(tail[j] == s@[pos + j]);
                }
                if k < n {
                    assert(tail[k - pos] == s@[k as int]);
                }
                lemma_first_semi_at(tail, k - pos);
            }
            if k == n {
                return None;
            }
            let mut ent: Vec<char> = Vec::new();
            let mut q: usize = pos + 1;
            while q < k
                invariant
                    pos + 1 <= q <= k < n,
                    ent@ =~= s@.subrange(pos + 1, q as int),
                decreases k - q,
            {
                ent.push(s[q]);
                assert(ent@ =~= s@.subrange(pos + 1, q + 1 as int));
                q = q + 1;
            }
            proof {
                assert(ent@ =~= tail.subrange(1, k - pos));
            }
            match entity_decode(&ent) {
                Some(ch) => {
                    proof {
                        assert(tail.subrange(k - pos + 1, tail.len() as int) =~= s@.subrange(
                            k + 1,
                            n as int,
                        ));
                    }
                    let ghost gout = out@;
                    out.push(ch);
                    proof {
                        match unescape_spec(s@.subrange(k + 1, n as int)) {
                            Some(rest) => {
                                assert(gout + (seq![ch] + rest) =~= out@ + rest);
                            },
                            None => {},
                        }
                    }
                    pos = k + 1;
                },
                None => {
                    return None;
                },
            }
        }
    }
    proof {
        assert(s@.subrange(n as int, n as int) =~= Seq::<char>::empty());
    }
    Some(out)
}



/// First index at or past `i` holding `c`, or the text's end.
pub open spec fn scan_past(s: Seq<char>, i: int, c: char) -> int
    decreases s.len() - i,
{
    if i < 0 || i >= s.len() {
        s.len() as int
    } else if s[i] == c {
        i
    } else {
        scan_past(s, i + 1, c)
    }
}

proof fn lemma_scan_past_bounds(s: Seq<char>, i: int, c: char)
    requires
        0 <= i <= s.len(),
    ensures
        i <= scan_past(s, i, c) <= s.len(),
    decreases s.len() - i,
{
    if i < s.len() && s[i] != c {
        lemma_scan_past_bounds(s, i + 1, c);
    }
}

/// First index at or past `i` where the three characters `a b c` stand
/// in a row, or the text's end when they never do.
pub open spec fn scan_seq3(s: Seq<char>, i: int, a: char, b: char, c: char) -> int
    decreases s.len() - i,
{
    if i < 0 || i + 2 >= s.len() {
        s.len() as int
    } else if s[i] == a && s[i + 1] == b && s[i + 2] == c {
        i
    } else {
        scan_seq3(s, i + 1, a, b, c)
    }
}

/// Where a start tag's closing `>` stands: a `>` inside a quoted
/// attribute value does not close the tag.
pub open spec fn scan_tag_close(s: Seq<char>, i: int, quote: Option<char>) -> int
    decreases s.len() - i,
{
    if i < 0 || i >= s.len() {
        s.len() as int
    } else {
        match quote {
            None => if s[i] == '>' {
                i
            } else if s[i] == '"' || s[i] == '\'' {
                scan_tag_close(s, i + 1, Some(s[i]))
            } else {
                scan_tag_close(s, i + 1, None)
            },
            Some(q) => if s[i] == q {
                scan_tag_close(s, i + 1, None)
            } else {
                scan_tag_close(s, i + 1, Some(q))
            },
        }
    }
}

/// Where a tag's element name ends: at the first white space, or the
/// content's end.
pub open spec fn tag_name_end(s: Seq<char>, i: int) -> int
    decreases s.len() - i,
{
    if i < 0 || i >= s.len() {
        s.len() as int
    } else if is_space_char(s[i]) {
        i
    } else {
        tag_name_end(s, i + 1)
    }
}

/// Where the attribute reader stands between two characters of a tag's
/// interior.
#[derive(Clone, Copy, PartialEq, Eq, Structural, Debug)]
pub enum AttrMode {
    /// Between tokens, skipping white space; a stray `=` is dropped.
    Gap,
    /// Inside an attribute name.
    Name,
    /// After a name, awaiting its `=`.
    AfterName,
    /// After the `=`, awaiting the opening quote.
    Eq,
    /// Inside a quoted value; the payload is the closing quote.
    Val(char),
}

/// The attribute reader's state: finished attributes, the open name and
/// value, and the mode.
pub struct AttrScan {
    pub attrs: Seq<(Seq<char>, Seq<char>)>,
    pub name: Seq<char>,
    pub val: Seq<char>,
    pub mode: AttrMode,
}

/// One character of a tag's interior.  A token that is not a
/// well-formed `name="value"` attribute is dropped; an attribute value
/// that does not unescape collapses to the empty string; an unterminated
/// value yields nothing.
pub open spec fn attr_step(st: AttrScan, c: char) -> AttrScan {
    match st.mode {
        AttrMode::Gap => {
            if is_space_char(c) || c == '=' {
                st
            } else {
                AttrScan { name: seq![c], mode: AttrMode::Name, ..st }
            }
        },
        AttrMode::Name => {
            if c == '=' {
                AttrScan { mode: AttrMode::Eq, ..st }
            } else if is_space_char(c) {
                AttrScan { mode: AttrMode::AfterName, ..st }
            } else {
                AttrScan { name: st.name.push(c), ..st }
            }
        },
        AttrMode::AfterName => {
            if is_space_char(c) {
                st
            } else if c == '=' {
                AttrScan { mode: AttrMode::Eq, ..st }
            } else {
                AttrScan { name: seq![c], mode: AttrMode::Name, ..st }
            }
        },
        AttrMode::Eq => {
            if is_space_char(c) {
                st
            } else if c == '"' || c == '\'' {
                AttrScan { val: Seq::empty(), mode: AttrMode::Val(c), ..st }
            } else if c == '=' {
                AttrScan { mode: AttrMode::Gap, ..st }
            } else {
                AttrScan { name: seq![c], mode: AttrMode::Name, ..st }
            }
        },
        AttrMode::Val(q) => {
            if c == q {
                AttrScan {
                    attrs: st.attrs.push(
                        (
                            st.name,
                            match unescape_spec(st.val) {
                                Some(u) => u,
                                None => Seq::empty(),
                            },
                        ),
                    ),
                    mode: AttrMode::Gap,
                    ..st
                }
            } else {
                AttrScan { val: st.val.push(c), ..st }
            }
        },
    }
}

/// The attribute reader run over a whole tag interior.
pub open spec fn attr_scan(s: Seq<char>) -> AttrScan
    decreases s.len(),
{
    if s.len() == 0 {
        AttrScan { attrs: Seq::empty(), name: Seq::empty(), val: Seq::empty(), mode: AttrMode::Gap }
    } else {
        attr_step(attr_scan(s.drop_last()), s.last())
    }
}

/// The attributes a tag interior carries, after its element name.
pub open spec fn attrs_of(content: Seq<char>) -> Seq<(Seq<char>, Seq<char>)> {
    attr_scan(content.subrange(tag_name_end(content, 0), content.len() as int)).attrs
}

/// The attribute pairs of an event, as character sequences.
pub open spec fn attrs_view(a: Seq<(Vec<char>, Vec<char>)>) -> Seq<(Seq<char>, Seq<char>)> {
    a.map_values(|p: (Vec<char>, Vec<char>)| (p.0@, p.1@))
}

/// Whether a text chunk makes a `Text` event: trimmed, it must be
/// non-empty and unescape to something non-empty.
pub open spec fn text_event_of(raw: Seq<char>) -> Option<Seq<char>> {
    let t = trim_spec(raw);
    if t.len() == 0 {
        None
    } else {
        match unescape_spec(t) {
            Some(u) => if u.len() > 0 {
                Some(u)
            } else {
                None
            },
            None => None,
        }
    }
}

/// Whether the text begins a comment at `pos` (`<!--`).
pub open spec fn comment_at(s: Seq<char>, pos: int) -> bool {
    pos + 3 < s.len() && s[pos + 2] == '-' && s[pos + 3] == '-'
}

/// Whether the text begins a character-data section at `pos`
/// (`<![CDATA[`).
pub open spec fn cdata_at(s: Seq<char>, pos: int) -> bool {
    pos + 8 < s.len() && s[pos + 2] == '[' && s[pos + 3] == 'C' && s[pos + 4] == 'D' && s[pos
        + 5] == 'A' && s[pos + 6] == 'T' && s[pos + 7] == 'A' && s[pos + 8] == '['
}

/// What one step of the cursor yields on text `s` at position `pos`:
/// the event (or error) and the new position.  This is the cursor's
/// whole grammar; names are kept with their prefixes, the interior of a
/// start tag splits into the element name and `attr_scan`'s attributes,
/// and only markup that never closes errs.  The cursor does not match
/// end-tag names against start tags: the decoders key on names alone
/// and never depend on nesting, where a strict reader would reject a
/// mismatched document.
pub open spec fn cursor_step(
    s: Seq<char>,
    pos: int,
    r: Result<XmlEvent, String>,
    newpos: int,
) -> bool {
    if pos >= s.len() {
        r matches Ok(e) && e is Eof && newpos == pos
    } else if s[pos] != '<' {
        let e = scan_past(s, pos + 1, '<');
        newpos == e && (match r {
            Ok(ev) => match ev {
                XmlEvent::Text { text } => text_event_of(s.subrange(pos, e)) == Some(text@),
                XmlEvent::Skip => text_event_of(s.subrange(pos, e)) is None,
                _ => false,
            },
            Err(_) => false,
        })
    } else if pos + 1 >= s.len() {
        r is Err && newpos == pos
    } else if s[pos + 1] == '/' {
        let q = scan_past(s, pos + 2, '>');
        if q >= s.len() {
            r is Err && newpos == pos
        } else {
            newpos == q + 1 && (match r {
                Ok(ev) => ev matches XmlEvent::End { name } && name@ == trim_spec(
                    s.subrange(pos + 2, q),
                ),
                Err(_) => false,
            })
        }
    } else if s[pos + 1] == '!' {
        if comment_at(s, pos) {
            let ce = scan_seq3(s, pos + 4, '-', '-', '>');
            if ce >= s.len() {
                r is Err && newpos == pos
            } else {
                newpos == ce + 3 && (r matches Ok(ev) && ev is Skip)
            }
        } else if cdata_at(s, pos) {
            let ce = scan_seq3(s, pos + 9, ']', ']', '>');
            if ce >= s.len() {
                r is Err && newpos == pos
            } else {
                newpos == ce + 3 && (r matches Ok(ev) && ev is Skip)
            }
        } else {
            let q = scan_past(s, pos + 2, '>');
            if q >= s.len() {
                r is Err && newpos == pos
            } else {
                newpos == q + 1 && (r matches Ok(ev) && ev is Skip)
            }
        }
    } else if s[pos + 1] == '?' {
        let q = scan_past(s, pos + 2, '>');
        if q >= s.len() {
            r is Err && newpos == pos
        } else {
            newpos == q + 1 && (r matches Ok(ev) && ev is Skip)
        }
    } else {
        let q = scan_tag_close(s, pos + 1, None);
        if q >= s.len() {
            r is Err && newpos == pos
        } else {
            let selfclose = q > pos + 1 && s[q - 1] == '/';
            let endc = if selfclose {
                q - 1
            } else {
                q
            };
            let content = s.subrange(pos + 1, endc);
            let nm = content.take(tag_name_end(content, 0));
            let ats = attrs_of(content);
            newpos == q + 1 && (match r {
                Ok(ev) => match ev {
                    XmlEvent::Start { name, attrs } => !selfclose && name@ == nm && attrs_view(
                        attrs@,
                    ) == ats,
                    XmlEvent::Empty { name, attrs } => selfclose && name@ == nm && attrs_view(
                        attrs@,
                    ) == ats,
                    _ => false,
                },
                Err(_) => false,
            })
        }
    }
}

/// One event of the cursor.
pub enum XmlEvent {
    /// `<name a="v" ...>`
    Start { name: Vec<char>, attrs: Vec<(Vec<char>, Vec<char>)> },
    /// `<name a="v" .../>`
    Empty { name: Vec<char>, attrs: Vec<(Vec<char>, Vec<char>)> },
    /// `</name>`
    End { name: Vec<char> },
    /// A non-empty trimmed text run with its entities resolved.
    Text { text: Vec<char> },
    /// Markup the decoders ignore: comments, declarations, processing
    /// instructions, white-space-only or unresolvable text.
    Skip,
    /// The end of the input.
    Eof,
}

/// The characters of the range `a..b` of `v`.
fn copy_range(v: &Vec<char>, a: usize, b: usize) -> (r: Vec<char>)
    requires
        a <= b <= v@.len(),
    ensures
        r@ == v@.subrange(a as int, b as int),
{
    let mut r: Vec<char> = Vec::new();
    let mut i: usize = a;
    while i < b
        invariant
            a <= i <= b <= v@.len(),
            r@ =~= v@.subrange(a as int, i as int),
        decreases b - i,
    {
        r.push(v[i]);
        assert(r@ =~= v@.subrange(a as int, i + 1 as int));
        i = i + 1;
    }
    r
}

proof fn lemma_attrs_view_push(a: Seq<(Vec<char>, Vec<char>)>, p: (Vec<char>, Vec<char>))
    ensures
        attrs_view(a.push(p)) == attrs_view(a).push((p.0@, p.1@)),
{
    assert(attrs_view(a.push(p)) =~= attrs_view(a).push((p.0@, p.1@)));
}

/// Reads a tag's interior: the element name up to the first white space,
/// then the attributes, exactly as `tag_name_end` and `attr_scan` state
/// them.
#[verifier::loop_isolation(false)]
fn parse_tag_content(content: &Vec<char>) -> (r: (Vec<char>, Vec<(Vec<char>, Vec<char>)>))
    ensures
        r.0@ == content@.take(tag_name_end(content@, 0)),
        attrs_view(r.1@) == attrs_of(content@),
{
    let n = content.len();
    let mut i: usize = 0;
    while i < n && !space_char(content[i])
        invariant
            0 <= i <= n,
            tag_name_end(content@, 0) == tag_name_end(content@, i as int),
        decreases n - i,
    {
        i = i + 1;
    }
    proof {
        assert(tag_name_end(content@, i as int) == i);
    }
    let name = copy_range(content, 0, i);
    let ghost tail = content@.subrange(i as int, n as int);
    let mut attrs: Vec<(Vec<char>, Vec<char>)> = Vec::new();
    let mut aname: Vec<char> = Vec::new();
    let mut aval: Vec<char> = Vec::new();
    let mut mode = AttrMode::Gap;
    let mut k: usize = i;
    proof {
        assert(tail.take(0) =~= Seq::<char>::empty());
        assert(attrs_view(attrs@) =~= Seq::<(Seq<char>, Seq<char>)>::empty());
        assert(aname@ =~= Seq::<char>::empty());
        assert(aval@ =~= Seq::<char>::empty());
    }
    while k < n
        invariant
            i <= k <= n,
            tail == content@.subrange(i as int, n as int),
            attr_scan(tail.take(k - i)) == (AttrScan {
                attrs: attrs_view(attrs@),
                name: aname@,
                val: aval@,
                mode: mode,
            }),
        decreases n - k,
    {
        proof {
            assert(tail.take(k - i + 1).drop_last() =~= tail.take(k - i));
            assert(tail.take(k - i + 1).last() == content@[k as int]);
        }
        let ghost pre = attr_scan(tail.take(k - i));
        let c = content[k];
        match mode {
            AttrMode::Gap => {
                if space_char(c) || c == '=' {
                } else {
                    aname = Vec::new();
                    aname.push(c);
                    mode = AttrMode::Name;
                    proof {
                        assert(aname@ =~= seq![c]);
                    }
                }
            },
            AttrMode::Name => {
                if c == '=' {
                    mode = AttrMode::Eq;
                } else if space_char(c) {
                    mode = AttrMode::AfterName;
                } else {
                    aname.push(c);
                }
            },
            AttrMode::AfterName => {
                if space_char(c) {
                } else if c == '=' {
                    mode = AttrMode::Eq;
                } else {
                    aname = Vec::new();
                    aname.push(c);
                    mode = AttrMode::Name;
                    proof {
                        assert(aname@ =~= seq![c]);
                    }
                }
            },
            AttrMode::Eq => {
                if space_char(c) {
                } else if c == '"' || c == '\'' {
                    aval = Vec::new();
                    mode = AttrMode::Val(c);
                    proof {
                        assert(aval@ =~= Seq::<char>::empty());
                    }
                } else if c == '=' {
                    mode = AttrMode::Gap;
                } else {
                    aname = Vec::new();
                    aname.push(c);
                    mode = AttrMode::Name;
                    proof {
                        assert(aname@ =~= seq![c]);
                    }
                }
            },
            AttrMode::Val(q) => {
                if c == q {
                    let u = match unescape_chars(&aval) {
                        Some(u) => u,
                        None => Vec::new(),
                    };
                    let nm = crate::text::copy_chars(&aname);
                    let ghost ga = attrs@;
                    attrs.push((nm, u));
                    mode = AttrMode::Gap;
                    proof {
                        lemma_attrs_view_push(ga, (nm, u));
                        assert(attrs_view(attrs@) == pre.attrs.push(
                            (
                                pre.name,
                                match unescape_spec(pre.val) {
                                    Some(uu) => uu,
                                    None => Seq::<char>::empty(),
                                },
                            ),
                        ));
                    }
                } else {
                    aval.push(c);
                }
            },
        }
        k = k + 1;
    }
    proof {
        assert(tail.take(n - i) =~= tail);
        assert(attrs_of(content@) == attr_scan(tail).attrs);
    }
    (name, attrs)
}

/// A forward-only cursor over XML text.
pub struct XmlCursor {
    pub chars: Vec<char>,
    pub pos: usize,
}

impl XmlCursor {
    /// The position never runs past the end of the text.
    pub open spec fn wf(&self) -> bool {
        self.pos <= self.chars@.len()
    }

    /// A cursor at the start of the text.
    pub fn new(chars: Vec<char>) -> (r: XmlCursor)
        ensures
            r.wf(),
            r.chars == chars,
            r.pos == 0,
    {
        XmlCursor { chars, pos: 0 }
    }

    /// The next event, exactly as `cursor_step` states it.  The text
    /// never changes; the position never moves back, and moves strictly
    /// forward on every event but `Eof`, which comes exactly at the end
    /// of the text — so a loop that stops at `Eof` or on an error
    /// terminates.  A `Text` event is never empty.
    #[verifier::loop_isolation(false)]
    pub fn next_event(&mut self) -> (r: Result<XmlEvent, String>)
        requires
            old(self).wf(),
        ensures
            final(self).wf(),
            final(self).chars == old(self).chars,
            final(self).pos >= old(self).pos,
            cursor_step(old(self).chars@, old(self).pos as int, r, final(self).pos as int),
            match r {
                Ok(e) => match e {
                    XmlEvent::Eof => old(self).pos == old(self).chars@.len(),
                    XmlEvent::Text { text } => text@.len() > 0 && final(self).pos > old(
                        self,
                    ).pos,
                    _ => final(self).pos > old(self).pos,
                },
                Err(_) => true,
            },
    {
        let n = self.chars.len();
        let pos = self.pos;
        if pos >= n {
            return Ok(XmlEvent::Eof);
        }
        let c = self.chars[pos];
        if c != '<' {
            let mut e: usize = pos + 1;
            while e < n && self.chars[e] != '<'
                invariant
                    pos < e <= n,
                    scan_past(self.chars@, pos + 1, '<') == scan_past(self.chars@, e as int, '<'),
                decreases n - e,
            {
                e = e + 1;
            }
            proof {
                assert(scan_past(self.chars@, pos + 1, '<') == e);
            }
            let raw = copy_range(&self.chars, pos, e);
            self.pos = e;
            let t = trim_chars(&raw);
            if t.len() == 0 {
                return Ok(XmlEvent::Skip);
            }
            match unescape_chars(&t) {
                Some(u) => {
                    if u.len() == 0 {
                        Ok(XmlEvent::Skip)
                    } else {
                        Ok(XmlEvent::Text { text: u })
                    }
                },
                None => Ok(XmlEvent::Skip),
            }
        } else if pos + 1 >= n {
            Err(String::from_str("markup never closes"))
        } else {
            let c1 = self.chars[pos + 1];
            if c1 == '/' {
                let mut q: usize = pos + 2;
                while q < n && self.chars[q] != '>'
                    invariant
                        pos + 2 <= q <= n,
                        scan_past(self.chars@, pos + 2, '>') == scan_past(
                            self.chars@,
                            q as int,
                            '>',
                        ),
                    decreases n - q,
                {
                    q = q + 1;
                }
                if q >= n {
                    return Err(String::from_str("end tag never closes"));
                }
                proof {
                    assert(scan_past(self.chars@, pos + 2, '>') == q);
                }
                let raw = copy_range(&self.chars, pos + 2, q);
                let name = trim_chars(&raw);
                self.pos = q + 1;
                Ok(XmlEvent::End { name })
            } else if c1 == '!' {
                if n - pos > 3 && self.chars[pos + 2] == '-' && self.chars[pos + 3] == '-' {
                    let mut q: usize = pos + 4;
                    while n - q > 2 && !(self.chars[q] == '-' && self.chars[q + 1] == '-'
                        && self.chars[q + 2] == '>')
                        invariant
                            pos + 4 <= q <= n,
                            scan_seq3(self.chars@, pos + 4, '-', '-', '>') == scan_seq3(
                                self.chars@,
                                q as int,
                                '-',
                                '-',
                                '>',
                            ),
                        decreases n - q,
                    {
                        q = q + 1;
                    }
                    if n - q <= 2 {
                        proof {
                            assert(scan_seq3(self.chars@, pos + 4, '-', '-', '>')
                                == self.chars@.len());
                        }
                        return Err(String::from_str("comment never closes"));
                    }
                    proof {
                        assert(scan_seq3(self.chars@, pos + 4, '-', '-', '>') == q);
                    }
                    self.pos = q + 3;
                    Ok(XmlEvent::Skip)
                } else if n - pos > 8 && self.chars[pos + 2] == '[' && self.chars[pos + 3] == 'C'
                    && self.chars[pos + 4] == 'D' && self.chars[pos + 5] == 'A' && self.chars[pos
                    + 6] == 'T' && self.chars[pos + 7] == 'A' && self.chars[pos + 8] == '[' {
                    let mut q: usize = pos + 9;
                    while n - q > 2 && !(self.chars[q] == ']' && self.chars[q + 1] == ']'
                        && self.chars[q + 2] == '>')
                        invariant
                            pos + 9 <= q <= n,
                            scan_seq3(self.chars@, pos + 9, ']', ']', '>') == scan_seq3(
                                self.chars@,
                                q as int,
                                ']',
                                ']',
                                '>',
                            ),
                        decreases n - q,
                    {
                        q = q + 1;
                    }
                    if n - q <= 2 {
                        proof {
                            assert(scan_seq3(self.chars@, pos + 9, ']', ']', '>')
                                == self.chars@.len());
                        }
                        return Err(String::from_str("character data never closes"));
                    }
                    proof {
                        assert(scan_seq3(self.chars@, pos + 9, ']', ']', '>') == q);
                    }
                    self.pos = q + 3;
                    Ok(XmlEvent::Skip)
                } else {
                    let mut q: usize = pos + 2;
                    while q < n && self.chars[q] != '>'
                        invariant
                            pos + 2 <= q <= n,
                            scan_past(self.chars@, pos + 2, '>') == scan_past(
                                self.chars@,
                                q as int,
                                '>',
                            ),
                        decreases n - q,
                    {
                        q = q + 1;
                    }
                    if q >= n {
                        return Err(String::from_str("declaration never closes"));
                    }
                    proof {
                        assert(scan_past(self.chars@, pos + 2, '>') == q);
                    }
                    self.pos = q + 1;
                    Ok(XmlEvent::Skip)
                }
            } else if c1 == '?' {
                let mut q: usize = pos + 2;
                while q < n && self.chars[q] != '>'
                    invariant
                        pos + 2 <= q <= n,
                        scan_past(self.chars@, pos + 2, '>') == scan_past(
                            self.chars@,
                            q as int,
                            '>',
                        ),
                    decreases n - q,
                {
                    q = q + 1;
                }
                if q >= n {
                    return Err(String::from_str("processing instruction never closes"));
                }
                proof {
                    assert(scan_past(self.chars@, pos + 2, '>') == q);
                }
                self.pos = q + 1;
                Ok(XmlEvent::Skip)
            } else {
                let mut q: usize = pos + 1;
                let mut quote: char = ' ';
                let mut in_quote = false;
                while q < n && (in_quote || self.chars[q] != '>')
                    invariant
                        pos + 1 <= q <= n,
                        scan_tag_close(self.chars@, pos + 1, None) == scan_tag_close(
                            self.chars@,
                            q as int,
                            if in_quote {
                                Some(quote)
                            } else {
                                None
                            },
                        ),
                    decreases n - q,
                {
                    let ch = self.chars[q];
                    if in_quote {
                        if ch == quote {
                            in_quote = false;
                        }
                    } else {
                        if ch == '"' || ch == '\'' {
                            in_quote = true;
                            quote = ch;
                        }
                    }
                    q = q + 1;
                }
                if q >= n {
                    return Err(String::from_str("start tag never closes"));
                }
                proof {
                    assert(scan_tag_close(self.chars@, pos + 1, None) == q);
                }
                let is_empty_tag = q > pos + 1 && self.chars[q - 1] == '/';
                let endc: usize = if is_empty_tag {
                    q - 1
                } else {
                    q
                };
                let content = copy_range(&self.chars, pos + 1, endc);
                let (name, attrs) = parse_tag_content(&content);
                self.pos = q + 1;
                if is_empty_tag {
                    Ok(XmlEvent::Empty { name, attrs })
                } else {
                    Ok(XmlEvent::Start { name, attrs })
                }
            }
        }
    }
}



/// The value of the first attribute named `key`, if any.
pub open spec fn attr_lookup(attrs: Seq<(Vec<char>, Vec<char>)>, key: Seq<char>) -> Option<
    Seq<char>,
>
    decreases attrs.len(),
{
    if attrs.len() == 0 {
        None
    } else if attrs[0].0@ == key {
        Some(attrs[0].1@)
    } else {
        attr_lookup(attrs.subrange(1, attrs.len() as int), key)
    }
}

/// Finds the first attribute named `key`, exactly as `attr_lookup` states
/// it.
#[verifier::loop_isolation(false)]
pub fn find_attr<'a>(attrs: &'a Vec<(Vec<char>, Vec<char>)>, key: &str) -> (r: Option<
    &'a Vec<char>,
>)
    ensures
        match r {
            Some(v) => attr_lookup(attrs@, key@) == Some(v@),
            None => attr_lookup(attrs@, key@) is None,
        },
{
    let n = attrs.len();
    let mut i: usize = 0;
    proof {
        assert(attrs@.subrange(0, n as int) =~= attrs@);
    }
    while i < n
        invariant
            0 <= i <= n,
            attr_lookup(attrs@, key@) == attr_lookup(attrs@.subrange(i as int, n as int), key@),
        decreases n - i,
    {
        proof {
            let sub = attrs@.subrange(i as int, n as int);
            assert(sub[0] == attrs@[i as int]);
            assert(sub.subrange(1, sub.len() as int) =~= attrs@.subrange(i + 1, n as int));
        }
        if crate::text::chars_eq_str(&attrs[i].0, key) {
            return Some(&attrs[i].1);
        }
        i = i + 1;
    }
    proof {
        assert(attrs@.subrange(n as int, n as int) =~= Seq::<(Vec<char>, Vec<char>)>::empty());
    }
    None
}


} // verus!
