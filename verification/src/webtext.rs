//! Small string rules the hosting layer leans on: file-name sanitizing
//! for a download header, origin-list handling for the CORS
//! configuration, and plain string equality.

use vstd::prelude::*;
use crate::text::{
    all_digits, chars_eq_str, chars_to_string, copy_chars, digit_char, is_digit_char, str_to_chars,
    trim_chars, trim_spec,
};

verus! {

/// Plain string equality over the characters.
pub fn str_eq(a: &str, b: &str) -> (r: bool)
    ensures
        r == (a@ == b@),
{
    let av = str_to_chars(a);
    chars_eq_str(&av, b)
}

/// A character a downloaded file's name may keep: ASCII letters and
/// digits, dot, underscore and dash.
pub open spec fn keep_fname_char(c: char) -> bool {
    (0x30 <= c as u32 && c as u32 <= 0x39) || (0x41 <= c as u32 && c as u32 <= 0x5A) || (0x61
        <= c as u32 && c as u32 <= 0x7A) || c == '.' || c == '_' || c == '-'
}

/// What the sanitizer yields: every other character becomes an
/// underscore, and an empty name becomes `export`.
pub open spec fn sanitize_spec(s: Seq<char>) -> Seq<char> {
    if s.len() == 0 {
        "export"@
    } else {
        s.map_values(
            |c: char|
                if keep_fname_char(c) {
                    c
                } else {
                    '_'
                },
        )
    }
}

/// Cleans a file name for a download header, exactly as `sanitize_spec`
/// states it.
#[verifier::loop_isolation(false)]
pub fn sanitize_filename(name: &str) -> (r: String)
    ensures
        r@ == sanitize_spec(name@),
{
    let v = str_to_chars(name);
    let n = v.len();
    if n == 0 {
        return String::from_str("export");
    }
    let mut out: Vec<char> = Vec::new();
    let mut i: usize = 0;
    while i < n
        invariant
            0 <= i <= n,
            n == v@.len(),
            v@ == name@,
            out@ =~= v@.take(i as int).map_values(
                |c: char|
                    if keep_fname_char(c) {
                        c
                    } else {
                        '_'
                    },
            ),
        decreases n - i,
    {
        let c = v[i];
        let u = c as u32;
        let keep = (0x30 <= u && u <= 0x39) || (0x41 <= u && u <= 0x5A) || (0x61 <= u && u
            <= 0x7A) || c == '.' || c == '_' || c == '-';
        if keep {
            out.push(c);
        } else {
            out.push('_');
        }
        proof {
            assert(out@ =~= v@.take(i + 1).map_values(
                |c: char|
                    if keep_fname_char(c) {
                        c
                    } else {
                        '_'
                    },
            ));
        }
        i = i + 1;
    }
    proof {
        assert(v@.take(n as int) =~= v@);
    }
    chars_to_string(&out)
}

/// Index of the last colon of `s`, or `-1` when it has none.
pub open spec fn last_colon(s: Seq<char>) -> int
    decreases s.len(),
{
    if s.len() == 0 {
        -1
    } else if s.last() == ':' {
        s.len() - 1
    } else {
        last_colon(s.drop_last())
    }
}

proof fn lemma_last_colon_at(s: Seq<char>, i: int)
    requires
        0 <= i <= s.len(),
        forall|k: int| i <= k < s.len() ==> s[k] != ':',
        i > 0 ==> s[i - 1] == ':',
    ensures
        last_colon(s) == i - 1,
    decreases s.len(),
{
    if i < s.len() {
        lemma_last_colon_at(s.drop_last(), i);
    }
}

/// What the origin helper yields: the origin unchanged when the port is
/// empty or `0`, or when the origin already ends in `:digits` (even an
/// empty digit run); otherwise the origin with `:port` appended.
pub open spec fn append_port_spec(origin: Seq<char>, port: Seq<char>) -> Seq<char> {
    if port.len() == 0 || port == seq!['0'] {
        origin
    } else {
        let lc = last_colon(origin);
        if lc >= 0 && all_digits(origin.subrange(lc + 1, origin.len() as int)) {
            origin
        } else {
            origin + seq![':'] + port
        }
    }
}

/// Appends a default port to an origin that names none, exactly as
/// `append_port_spec` states it.
#[verifier::loop_isolation(false)]
pub fn append_port(origin: &str, port: &str) -> (r: String)
    ensures
        r@ == append_port_spec(origin@, port@),
{
    let pv = str_to_chars(port);
    if pv.len() == 0 || (pv.len() == 1 && pv[0] == '0') {
        proof {
            if pv@.len() == 1 && pv@[0] == '0' {
                assert(pv@ =~= seq!['0']);
            }
        }
        return String::from_str(origin);
    }
    proof {
        assert(pv@ != seq!['0']) by {
            if pv@ == seq!['0'] {
                assert(pv@.len() == 1 && pv@[0] == '0');
            }
        }
    }
    let ov = str_to_chars(origin);
    let n = ov.len();
    let mut i: usize = n;
    while i > 0 && ov[i - 1] != ':'
        invariant
            0 <= i <= n,
            n == ov@.len(),
            forall|k: int| i <= k < n ==> ov@[k] != ':',
        decreases i,
    {
        i = i - 1;
    }
    proof {
        lemma_last_colon_at(ov@, i as int);
    }
    if i > 0 {
        let mut all_dig = true;
        let mut k: usize = i;
        while k < n
            invariant
                i <= k <= n,
                n == ov@.len(),
                all_dig == all_digits(ov@.subrange(i as int, k as int)),
            decreases n - k,
        {
            let ghost pre = ov@.subrange(i as int, k as int);
            if !digit_char(ov[k]) {
                all_dig = false;
            }
            proof {
                let cur = ov@.subrange(i as int, k + 1);
                assert(cur.drop_last() =~= pre);
                assert(cur.last() == ov@[k as int]);
                if all_digits(pre) && is_digit_char(ov@[k as int]) {
                    assert forall|j: int| 0 <= j < cur.len() implies is_digit_char(cur[j]) by {
                        if j < cur.len() - 1 {
                            assert(cur[j] == pre[j]);
                        }
                    }
                } else {
                    if !all_digits(pre) {
                        let j = choose|j: int| 0 <= j < pre.len() && !is_digit_char(#[trigger] pre[j]);
                        assert(cur[j] == pre[j]);
                        assert(!all_digits(cur));
                    } else {
                        assert(!is_digit_char(cur[cur.len() - 1]));
                        assert(!all_digits(cur));
                    }
                }
            }
            k = k + 1;
        }
        proof {
            assert(ov@.subrange(i as int, n as int) =~= ov@.subrange(
                last_colon(ov@) + 1,
                ov@.len() as int,
            ));
        }
        if all_dig {
            return String::from_str(origin);
        }
    }
    let mut out = copy_chars(&ov);
    out.push(':');
    let ghost mid = out@;
    let m = pv.len();
    let mut k2: usize = 0;
    while k2 < m
        invariant
            0 <= k2 <= m,
            m == pv@.len(),
            out@ =~= mid + pv@.take(k2 as int),
        decreases m - k2,
    {
        out.push(pv[k2]);
        assert(out@ =~= mid + pv@.take(k2 + 1));
        k2 = k2 + 1;
    }
    proof {
        assert(pv@.take(m as int) =~= pv@);
        assert(out@ =~= origin@ + seq![':'] + port@);
    }
    chars_to_string(&out)
}

/// Adds a trimmed origin to the allow-list unless it is empty or already
/// present.
#[verifier::loop_isolation(false)]
pub fn push_origin(origins: &mut Vec<String>, origin: &str)
    ensures
        ({
            let t = trim_spec(origin@);
            if t.len() == 0 || (exists|i: int|
                0 <= i < old(origins)@.len() && (#[trigger] old(origins)@[i])@ == t) {
                final(origins)@ == old(origins)@
            } else {
                final(origins)@.len() == old(origins)@.len() + 1 && final(origins)@.subrange(
                    0,
                    old(origins)@.len() as int,
                ) == old(origins)@ && final(origins)@.last()@ == t
            }
        }),
{
    let ov = str_to_chars(origin);
    let t = trim_chars(&ov);
    if t.len() == 0 {
        return ;
    }
    let n = origins.len();
    let mut i: usize = 0;
    while i < n
        invariant
            0 <= i <= n,
            n == origins@.len(),
            t@ == trim_spec(origin@),
            forall|k: int| 0 <= k < i ==> (#[trigger] origins@[k])@ != t@,
        decreases n - i,
    {
        let ev = str_to_chars(origins[i].as_str());
        if crate::text::chars_eq(&ev, &t) {
            return ;
        }
        i = i + 1;
    }
    let s = chars_to_string(&t);
    let ghost g0 = origins@;
    origins.push(s);
    proof {
        assert(origins@.subrange(0, g0.len() as int) =~= g0);
    }
}

} // verus!
