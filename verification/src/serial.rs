//! The serial-date normalizer: deciding when a bare number is "probably a
//! date", and formatting dates as `DD.MM.YYYY`.
//!
//! A numeric string whose value lies strictly between 59 and 60000 is read
//! as a day count from a base of 1900-01-01, minus two days.  The window
//! and the offset reproduce the historical spreadsheet epoch, phantom leap
//! day included: files written by common spreadsheet tools store dates this
//! way and must come back as the same calendar date.  The window is a
//! heuristic: an ordinary number inside it (an invoice total of 100) is
//! misclassified as a date, and a true date outside it is never recognized.
//! That is deliberate compatibility behaviour, kept, not fixed.

use vstd::prelude::*;
use crate::text::{
    all_digits, digit_char, digit_val, digits_value, is_digit_char, trim_spec, trim_chars,
    chars_to_string,
};

verus! {

/// Index of the first dot of `s`, or `-1` when it has none.
pub open spec fn first_dot(s: Seq<char>) -> int
    decreases s.len(),
{
    if s.len() == 0 {
        -1
    } else if s[0] == '.' {
        0
    } else {
        let r = first_dot(s.subrange(1, s.len() as int));
        if r < 0 {
            -1
        } else {
            r + 1
        }
    }
}

proof fn lemma_first_dot_at(s: Seq<char>, i: int)
    requires
        0 <= i <= s.len(),
        forall|k: int| 0 <= k < i ==> s[k] != '.',
        i < s.len() ==> s[i] == '.',
    ensures
        first_dot(s) == if i < s.len() {
            i
        } else {
            -1
        },
    decreases i,
{
    if i > 0 {
        let t = s.subrange(1, s.len() as int);
        lemma_first_dot_at(t, i - 1);
    }
}

/// Index of the first exponent marker (`e` or `E`) of `s`, or `-1` when
/// it has none.
pub open spec fn first_exp(s: Seq<char>) -> int
    decreases s.len(),
{
    if s.len() == 0 {
        -1
    } else if s[0] == 'e' || s[0] == 'E' {
        0
    } else {
        let r = first_exp(s.subrange(1, s.len() as int));
        if r < 0 {
            -1
        } else {
            r + 1
        }
    }
}

proof fn lemma_first_exp_at(s: Seq<char>, i: int)
    requires
        0 <= i <= s.len(),
        forall|k: int| 0 <= k < i ==> s[k] != 'e' && s[k] != 'E',
        i < s.len() ==> s[i] == 'e' || s[i] == 'E',
    ensures
        first_exp(s) == if i < s.len() {
            i
        } else {
            -1
        },
    decreases i,
{
    if i > 0 {
        lemma_first_exp_at(s.subrange(1, s.len() as int), i - 1);
    }
}

/// Ten to the `n`.
pub open spec fn pow10(n: nat) -> nat
    decreases n,
{
    if n == 0 {
        1
    } else {
        10 * pow10((n - 1) as nat)
    }
}

/// A mantissa: digits with at most one dot, at least one digit in all.
/// Yields the digit run (integer and fraction digits, concatenated) and
/// how many of them stand left of the dot.
pub open spec fn mant_parse(m: Seq<char>) -> Option<(Seq<char>, int)> {
    let p = first_dot(m);
    if p < 0 {
        if m.len() > 0 && all_digits(m) {
            Some((m, m.len() as int))
        } else {
            None
        }
    } else {
        let ip = m.subrange(0, p);
        let fp = m.subrange(p + 1, m.len() as int);
        if (ip.len() > 0 || fp.len() > 0) && all_digits(ip) && all_digits(fp) {
            Some((ip + fp, p))
        } else {
            None
        }
    }
}

/// An exponent suffix: an optional sign, then at least one digit.
pub open spec fn exp_parse(q: Seq<char>) -> Option<int> {
    let neg = q.len() > 0 && q[0] == '-';
    let t = if q.len() > 0 && (q[0] == '+' || q[0] == '-') {
        q.subrange(1, q.len() as int)
    } else {
        q
    };
    if t.len() > 0 && all_digits(t) {
        Some(
            if neg {
                -(digits_value(t) as int)
            } else {
                digits_value(t) as int
            },
        )
    } else {
        None
    }
}

/// A decimal number as the float parser reads one, short of the special
/// words: an optional sign, a mantissa of digits with at most one dot
/// and at least one digit, and an optional integer exponent.  Yields the
/// sign, the mantissa's digit run, and the position of the decimal point
/// within that run once the exponent has been applied.
pub open spec fn dec_parse(s: Seq<char>) -> Option<(bool, Seq<char>, int)> {
    let neg = s.len() > 0 && s[0] == '-';
    let t = if s.len() > 0 && (s[0] == '+' || s[0] == '-') {
        s.subrange(1, s.len() as int)
    } else {
        s
    };
    let x = first_exp(t);
    if x < 0 {
        match mant_parse(t) {
            Some(mp) => Some((neg, mp.0, mp.1)),
            None => None,
        }
    } else {
        match (mant_parse(t.subrange(0, x)), exp_parse(t.subrange(x + 1, t.len() as int))) {
            (Some(mp), Some(e)) => Some((neg, mp.0, mp.1 + e)),
            _ => None,
        }
    }
}

/// The number's integer part: the digits left of the shifted point,
/// scaled up when the point lies past the last digit.
pub open spec fn trunc_value(d: Seq<char>, p: int) -> nat {
    if p <= 0 {
        0
    } else if p >= d.len() {
        digits_value(d) * pow10((p - d.len()) as nat)
    } else {
        digits_value(d.take(p))
    }
}

/// Whether any non-zero digit lies right of the shifted point.
pub open spec fn frac_positive(d: Seq<char>, p: int) -> bool {
    exists|i: int|
        (if p > 0 {
            p
        } else {
            0
        }) <= i < d.len() && digit_val(#[trigger] d[i]) > 0
}

/// The day count a numeric string stands for, when its value lies in the
/// open window (59, 60000): the truncated value minus two.  Anything
/// else — no number, a negative one, or a value outside the window —
/// yields nothing.
pub open spec fn serial_days_spec(s: Seq<char>) -> Option<u64> {
    match dec_parse(s) {
        Some((neg, d, p)) => {
            let iv = trunc_value(d, p);
            if !neg && (iv > 59 || (iv == 59 && frac_positive(d, p))) && iv < 60000 {
                Some((iv - 2) as u64)
            } else {
                None
            }
        },
        None => None,
    }
}

proof fn lemma_digits_value_take_rel(s: Seq<char>, i: int)
    requires
        0 <= i < s.len(),
    ensures
        digits_value(s.take(i + 1)) == digits_value(s.take(i)) * 10 + digit_val(s[i]),
{
    let t = s.take(i + 1);
    assert(t.subrange(0, t.len() - 1) =~= s.take(i));
    assert(t[t.len() - 1] == s[i]);
}

/// Reads the digit run `s[from..to]` with saturation: the exact value when
/// it stays at 60000 or below, and 60001 once it has grown past the
/// window's upper bound.
#[verifier::loop_isolation(false)]
fn digits_value_capped(s: &Vec<char>, from: usize, to: usize) -> (v: u64)
    requires
        from <= to <= s@.len(),
        all_digits(s@.subrange(from as int, to as int)),
    ensures
        v <= 60000 ==> v == digits_value(s@.subrange(from as int, to as int)),
        v > 60000 ==> v == 60001 && digits_value(s@.subrange(from as int, to as int)) > 60000,
{
    let ghost t = s@.subrange(from as int, to as int);
    let mut v: u64 = 0;
    let mut i: usize = from;
    proof {
        assert(t.take(0) =~= Seq::<char>::empty());
    }
    while i < to
        invariant
            from <= i <= to,
            v <= 60000 ==> v == digits_value(t.take(i - from)),
            v > 60000 ==> v == 60001 && digits_value(t.take(i - from)) > 60000,
        decreases to - i,
    {
        let c = s[i];
        proof {
            lemma_digits_value_take_rel(t, i - from);
            assert(t[i - from] == s@[i as int]);
        }
        let d: u64 = ((c as u32) - 0x30) as u64;
        if v <= 60000 {
            let nv: u64 = v * 10 + d;
            if nv > 60000 {
                v = 60001;
            } else {
                v = nv;
            }
        } else {
            proof {
                assert(digits_value(t.take(i - from + 1)) > 60000);
            }
        }
        i = i + 1;
    }
    proof {
        assert(t.take(to - from) =~= t);
    }
    v
}

proof fn lemma_pow10_pos(n: nat)
    ensures
        pow10(n) >= 1,
    decreases n,
{
    if n > 0 {
        lemma_pow10_pos((n - 1) as nat);
    }
}

proof fn lemma_pow10_big(n: nat)
    requires
        n >= 5,
    ensures
        pow10(n) >= 100000,
    decreases n,
{
    if n == 5 {
        assert(pow10(0) == 1);
        assert(pow10(1) == 10);
        assert(pow10(2) == 100);
        assert(pow10(3) == 1000);
        assert(pow10(4) == 10000);
        assert(pow10(5) == 100000);
    } else {
        lemma_pow10_big((n - 1) as nat);
    }
}

/// Copies the digit run `s[from..to]`; `None` when a character there is
/// not a digit.
#[verifier::loop_isolation(false)]
fn collect_digits(s: &Vec<char>, from: usize, to: usize) -> (r: Option<Vec<char>>)
    requires
        from <= to <= s@.len(),
    ensures
        match r {
            Some(v) => all_digits(s@.subrange(from as int, to as int)) && v@ == s@.subrange(
                from as int,
                to as int,
            ),
            None => !all_digits(s@.subrange(from as int, to as int)),
        },
{
    let ghost d = s@.subrange(from as int, to as int);
    let mut v: Vec<char> = Vec::new();
    let mut i: usize = from;
    proof {
        assert(d.take(0) =~= Seq::<char>::empty());
    }
    while i < to
        invariant
            from <= i <= to,
            v@ =~= d.take(i - from),
            all_digits(d.take(i - from)),
        decreases to - i,
    {
        let c = s[i];
        proof {
            assert(d[i - from] == c);
        }
        if !digit_char(c) {
            proof {
                assert(!all_digits(d));
            }
            return None;
        }
        v.push(c);
        proof {
            assert(v@ =~= d.take(i - from + 1));
            assert forall|k: int| 0 <= k < i - from + 1 implies is_digit_char(
                #[trigger] d.take(i - from + 1)[k],
            ) by {
                if k < i - from {
                    assert(d.take(i - from + 1)[k] == d.take(i - from)[k]);
                } else {
                    assert(d.take(i - from + 1)[k] == c);
                }
            }
        }
        i = i + 1;
    }
    proof {
        assert(d.take(to - from) =~= d);
    }
    Some(v)
}

/// Reads exponent digits `s[from..to]`, saturating far past any point
/// position the mantissa could meaningfully take.
#[verifier::loop_isolation(false)]
fn scan_exp_digits(s: &Vec<char>, from: usize, to: usize) -> (r: Option<u128>)
    requires
        from <= to <= s@.len(),
    ensures
        ({
            let d = s@.subrange(from as int, to as int);
            match r {
                Some(v) => d.len() > 0 && all_digits(d) && v <= 0x10000000000000000000000000u128
                    && (if v < 0x10000000000000000000000000u128 {
                    v as nat == digits_value(d)
                } else {
                    digits_value(d) >= 0x10000000000000000000000000
                }),
                None => d.len() == 0 || !all_digits(d),
            }
        }),
{
    let ghost d = s@.subrange(from as int, to as int);
    if from == to {
        return None;
    }
    let mut v: u128 = 0;
    let mut i: usize = from;
    proof {
        assert(d.take(0) =~= Seq::<char>::empty());
    }
    while i < to
        invariant
            from <= i <= to,
            all_digits(d.take(i - from)),
            v <= 0x10000000000000000000000000u128,
            v < 0x10000000000000000000000000u128 ==> v as nat == digits_value(d.take(i - from)),
            v == 0x10000000000000000000000000u128 ==> digits_value(d.take(i - from))
                >= 0x10000000000000000000000000,
        decreases to - i,
    {
        let c = s[i];
        proof {
            assert(d[i - from] == c);
            lemma_digits_value_take_rel(d, i - from);
        }
        if !digit_char(c) {
            proof {
                assert(!all_digits(d));
            }
            return None;
        }
        proof {
            assert forall|k: int| 0 <= k < i - from + 1 implies is_digit_char(
                #[trigger] d.take(i - from + 1)[k],
            ) by {
                if k < i - from {
                    assert(d.take(i - from + 1)[k] == d.take(i - from)[k]);
                } else {
                    assert(d.take(i - from + 1)[k] == c);
                }
            }
        }
        let dv: u128 = ((c as u32) - 0x30) as u128;
        if v < 0x10000000000000000000000000u128 {
            let nv: u128 = v * 10 + dv;
            if nv >= 0x10000000000000000000000000u128 {
                v = 0x10000000000000000000000000u128;
            } else {
                v = nv;
            }
        } else {
            proof {
                assert(digits_value(d.take(i - from + 1)) >= digits_value(d.take(i - from)));
            }
        }
        i = i + 1;
    }
    proof {
        assert(d.take(to - from) =~= d);
    }
    Some(v)
}

/// The mantissa's integer part with the point at position `p`, saturated
/// just past the window's upper bound.
#[verifier::loop_isolation(false)]
fn trunc_value_capped(mant: &Vec<char>, p: i128) -> (iv: u64)
    requires
        all_digits(mant@),
    ensures
        iv <= 60000 ==> iv as nat == trunc_value(mant@, p as int),
        iv > 60000 ==> iv == 60001 && trunc_value(mant@, p as int) > 60000,
{
    let dl = mant.len();
    if p <= 0 {
        return 0;
    }
    if p >= dl as i128 {
        proof {
            assert(mant@.len() == dl as int);
            assert(p as int >= mant@.len());
            assert(mant@.subrange(0, dl as int) =~= mant@);
        }
        let base = digits_value_capped(mant, 0, dl);
        proof {
            assert(base <= 60001);
        }
        let ghost k = ((p as int) - mant@.len()) as nat;
        proof {
            lemma_pow10_pos(k);
        }
        if base == 0 {
            proof {
                assert(digits_value(mant@) == 0);
                assert(digits_value(mant@) * pow10(k) == 0) by (nonlinear_arith)
                    requires
                        digits_value(mant@) == 0,
                ;
                assert(trunc_value(mant@, p as int) == 0);
            }
            return 0;
        }
        if base > 60000 {
            proof {
                assert(digits_value(mant@) * pow10(k) >= digits_value(mant@))
                    by (nonlinear_arith)
                    requires
                        pow10(k) >= 1,
                ;
            }
            return 60001;
        }
        if p - (dl as i128) > 4 {
            proof {
                lemma_pow10_big(k);
                assert(digits_value(mant@) * pow10(k) >= pow10(k)) by (nonlinear_arith)
                    requires
                        digits_value(mant@) >= 1,
                ;
            }
            return 60001;
        }
        proof {
            assert(1 <= base <= 60000);
            assert(base as nat == digits_value(mant@));
            assert(0 <= p - (dl as i128) <= 4);
        }
        let ks: u64 = (p - dl as i128) as u64;
        let mul: u64 = if ks == 0 {
            1
        } else if ks == 1 {
            10
        } else if ks == 2 {
            100
        } else if ks == 3 {
            1000
        } else {
            10000
        };
        proof {
            assert(pow10(0) == 1);
            assert(pow10(1) == 10);
            assert(pow10(2) == 100);
            assert(pow10(3) == 1000);
            assert(pow10(4) == 10000);
            assert(mul as nat == pow10(k));
        }
        proof {
            assert(mul <= 10000);
            assert((base as nat) * (mul as nat) <= 600000000) by (nonlinear_arith)
                requires
                    base <= 60000,
                    mul <= 10000,
            ;
        }
        let v: u64 = base * mul;
        proof {
            assert(v as nat == digits_value(mant@) * pow10(k));
            assert(trunc_value(mant@, p as int) == digits_value(mant@) * pow10(k));
        }
        if v > 60000 {
            60001
        } else {
            v
        }
    } else {
        let pu = p as usize;
        proof {
            assert forall|j: int| 0 <= j < pu implies is_digit_char(
                #[trigger] mant@.subrange(0, pu as int)[j],
            ) by {
                assert(mant@.subrange(0, pu as int)[j] == mant@[j]);
            }
        }
        let r = digits_value_capped(mant, 0, pu);
        proof {
            assert(mant@.subrange(0, pu as int) =~= mant@.take(p as int));
        }
        r
    }
}

proof fn lemma_trunc_huge(d: Seq<char>, p: int)
    requires
        p >= d.len() + 5,
    ensures
        digits_value(d) == 0 ==> trunc_value(d, p) == 0,
        digits_value(d) > 0 ==> trunc_value(d, p) > 60000,
{
    let k = (p - d.len()) as nat;
    lemma_pow10_pos(k);
    if digits_value(d) > 0 {
        lemma_pow10_big(k);
        assert(digits_value(d) * pow10(k) >= pow10(k)) by (nonlinear_arith)
            requires
                digits_value(d) >= 1,
        ;
    }
}

/// Position of the first exponent marker at or after `start`, as an
/// absolute index (`s.len()` when there is none).
#[verifier::loop_isolation(false)]
fn scan_to_exp(s: &Vec<char>, start: usize) -> (x: usize)
    requires
        start <= s@.len(),
    ensures
        start <= x <= s@.len(),
        first_exp(s@.subrange(start as int, s@.len() as int)) == if x < s@.len() {
            x - start
        } else {
            -1
        },
{
    let n = s.len();
    let mut x: usize = start;
    while x < n && s[x] != 'e' && s[x] != 'E'
        invariant
            start <= x <= n,
            forall|k: int| start <= k < x ==> s@[k] != 'e' && s@[k] != 'E',
        decreases n - x,
    {
        x = x + 1;
    }
    proof {
        let t = s@.subrange(start as int, n as int);
        assert forall|k: int| 0 <= k < x - start implies t[k] != 'e' && t[k] != 'E' by {
            assert(t[k] == s@[start + k]);
        }
        if x < n {
            assert(t[x - start] == s@[x as int]);
        }
        lemma_first_exp_at(t, x - start);
    }
    x
}

/// Position of the first dot in `s[start..x]`, as an absolute index
/// (`x` when there is none).
#[verifier::loop_isolation(false)]
fn scan_to_dot(s: &Vec<char>, start: usize, x: usize) -> (pd: usize)
    requires
        start <= x <= s@.len(),
    ensures
        start <= pd <= x,
        first_dot(s@.subrange(start as int, x as int)) == if pd < x {
            pd - start
        } else {
            -1
        },
{
    let mut pd: usize = start;
    while pd < x && s[pd] != '.'
        invariant
            start <= pd <= x,
            forall|k: int| start <= k < pd ==> s@[k] != '.',
        decreases x - pd,
    {
        pd = pd + 1;
    }
    proof {
        let m = s@.subrange(start as int, x as int);
        assert forall|k: int| 0 <= k < pd - start implies m[k] != '.' by {
            assert(m[k] == s@[start + k]);
        }
        if pd < x {
            assert(m[pd - start] == s@[pd as int]);
        }
        lemma_first_dot_at(m, pd - start);
    }
    pd
}

/// Reads the mantissa `s[start..x]`: its digit run and the count of
/// digits left of the dot, exactly as `mant_parse` states it.
#[verifier::loop_isolation(false)]
#[verifier::rlimit(60)]
fn collect_mantissa(s: &Vec<char>, start: usize, x: usize) -> (r: Option<(Vec<char>, usize)>)
    requires
        start <= x <= s@.len(),
    ensures
        match r {
            Some(pr) => mant_parse(s@.subrange(start as int, x as int)) == Some(
                (pr.0@, pr.1 as int),
            ) && all_digits(pr.0@) && pr.0@.len() > 0 && pr.1 <= pr.0@.len(),
            None => mant_parse(s@.subrange(start as int, x as int)) is None,
        },
{
    let ghost m = s@.subrange(start as int, x as int);
    let pd = scan_to_dot(s, start, x);
    let ghost ip = if pd < x {
        m.subrange(0, pd - start)
    } else {
        m
    };
    let ghost fp = if pd < x {
        m.subrange(pd - start + 1, m.len() as int)
    } else {
        Seq::<char>::empty()
    };
    proof {
        assert(ip =~= s@.subrange(start as int, pd as int));
        if pd < x {
            assert(fp =~= s@.subrange(pd + 1, x as int));
        }
    }
    let ipv = match collect_digits(s, start, pd) {
        Some(v) => v,
        None => {
            return None;
        },
    };
    let fpv = if pd < x {
        match collect_digits(s, pd + 1, x) {
            Some(v) => v,
            None => {
                return None;
            },
        }
    } else {
        Vec::new()
    };
    let mut mant = ipv;
    let ghost gip = mant@;
    let fl = fpv.len();
    let mut fi: usize = 0;
    while fi < fl
        invariant
            0 <= fi <= fl,
            fl == fpv@.len(),
            mant@ =~= gip + fpv@.take(fi as int),
        decreases fl - fi,
    {
        mant.push(fpv[fi]);
        assert(mant@ =~= gip + fpv@.take(fi + 1));
        fi = fi + 1;
    }
    proof {
        assert(fpv@.take(fl as int) =~= fpv@);
        assert(mant@ =~= ip + fp);
    }
    if mant.len() == 0 {
        proof {
            if pd == x {
                assert(m.len() == 0);
            }
        }
        return None;
    }
    proof {
        assert(all_digits(mant@)) by {
            assert forall|k: int| 0 <= k < mant@.len() implies is_digit_char(
                #[trigger] mant@[k],
            ) by {
                if k < ip.len() {
                    assert(mant@[k] == ip[k]);
                } else {
                    assert(mant@[k] == fp[k - ip.len()]);
                }
            }
        }
        assert(mant_parse(m) == Some((mant@, (pd - start) as int))) by {
            if pd == x {
                assert(mant@ =~= m);
            }
        }
    }
    Some((mant, pd - start))
}

/// Scans a decimal number: the sign, the mantissa's digit run, and the
/// point position, the latter twice over — exactly for the scanned
/// grammar, and saturated for the machine.  The ghost position is the
/// grammar's; the machine position agrees with it exactly, or both lie
/// at or past the digit run's end by five or more, or both lie at or
/// below zero, which is all the window decision needs.
#[verifier::loop_isolation(false)]
#[verifier::rlimit(100)]
fn parse_decimal(s: &Vec<char>) -> (r: Option<(bool, Vec<char>, i128, Ghost<int>)>)
    ensures
        match r {
            Some(pr) => dec_parse(s@) == Some((pr.0, pr.1@, pr.3@)) && all_digits(pr.1@)
                && ((pr.2 as int == pr.3@) || (pr.3@ >= pr.1@.len() + 5 && pr.2 as int
                >= pr.1@.len() + 5) || (pr.3@ <= 0 && pr.2 as int <= 0)),
            None => dec_parse(s@) is None,
        },
{
    let n = s.len();
    let neg = n > 0 && s[0] == '-';
    let start: usize = if n > 0 && (s[0] == '+' || s[0] == '-') {
        1
    } else {
        0
    };
    let ghost t = if s@.len() > 0 && (s@[0] == '+' || s@[0] == '-') {
        s@.subrange(1, s@.len() as int)
    } else {
        s@
    };
    proof {
        assert(t =~= s@.subrange(start as int, n as int));
    }
    let x = scan_to_exp(s, start);
    let ghost m = if x < n {
        t.subrange(0, x - start)
    } else {
        t
    };
    proof {
        assert(m =~= s@.subrange(start as int, x as int));
    }
    let (mant, ic) = match collect_mantissa(s, start, x) {
        Some(pr) => pr,
        None => {
            return None;
        },
    };
    if x >= n {
        return Some((neg, mant, ic as i128, Ghost(ic as int)));
    }
    if x + 1 >= n {
        proof {
            let q = t.subrange(x - start + 1, t.len() as int);
            assert(q.len() == 0);
        }
        return None;
    }
    let ghost q = t.subrange(x - start + 1, t.len() as int);
    proof {
        assert(q =~= s@.subrange(x + 1, n as int));
        assert(q[0] == s@[x + 1]);
    }
    let eneg = s[x + 1] == '-';
    let es: usize = if s[x + 1] == '+' || s[x + 1] == '-' {
        x + 2
    } else {
        x + 1
    };
    let ghost qd = if q.len() > 0 && (q[0] == '+' || q[0] == '-') {
        q.subrange(1, q.len() as int)
    } else {
        q
    };
    proof {
        assert(qd =~= s@.subrange(es as int, n as int));
    }
    let ev = match scan_exp_digits(s, es, n) {
        Some(v) => v,
        None => {
            return None;
        },
    };
    let ml = mant.len();
    proof {
        assert(exp_parse(q) == Some(
            if q[0] == '-' {
                -(digits_value(qd) as int)
            } else {
                digits_value(qd) as int
            },
        ));
    }
    let ghost px: int = ic as int + (if eneg {
        -(digits_value(qd) as int)
    } else {
        digits_value(qd) as int
    });
    if ev < 0x10000000000000000000000000u128 {
        let pdec: i128 = if eneg {
            ic as i128 - (ev as i128)
        } else {
            ic as i128 + (ev as i128)
        };
        proof {
            assert(pdec as int == px);
        }
        Some((neg, mant, pdec, Ghost(px)))
    } else {
        let pdec: i128 = if eneg {
            ic as i128 - 0x10000000000000000000000000i128
        } else {
            ic as i128 + 0x10000000000000000000000000i128
        };
        proof {
            assert(digits_value(qd) >= 0x10000000000000000000000000);
            assert(ic as int <= mant@.len());
            assert(mant@.len() == ml as int);
            if eneg {
                assert(px <= 0);
                assert(pdec <= 0);
            } else {
                assert(px >= mant@.len() + 5);
                assert(pdec as int >= mant@.len() + 5);
            }
        }
        Some((neg, mant, pdec, Ghost(px)))
    }
}

/// Classifies a numeric string, returning the day count exactly when
/// `serial_days_spec` does.
#[verifier::loop_isolation(false)]
#[verifier::rlimit(100)]
pub fn classify_serial(s: &Vec<char>) -> (r: Option<u64>)
    ensures
        r == serial_days_spec(s@),
{
    let (neg, mant, pdec, gpx) = match parse_decimal(s) {
        Some(pr) => pr,
        None => {
            return None;
        },
    };
    let ghost px = gpx@;
    let ghost d = mant@;
    let iv = trunc_value_capped(&mant, pdec);
    let dl = mant.len();
    let fstart: usize = if pdec <= 0 {
        0
    } else if pdec >= dl as i128 {
        dl
    } else {
        pdec as usize
    };
    let mut fpos = false;
    let mut j: usize = fstart;
    while j < dl
        invariant
            fstart <= j <= dl,
            dl == mant@.len(),
            fpos == exists|k: int| fstart <= k < j && digit_val(#[trigger] mant@[k]) > 0,
        decreases dl - j,
    {
        let c = mant[j];
        if (c as u32) != 0x30 {
            proof {
                assert(is_digit_char(mant@[j as int]));
                assert(digit_val(mant@[j as int]) > 0);
            }
            fpos = true;
        }
        j = j + 1;
    }
    let res: Option<u64> = if !neg && (iv > 59 || (iv == 59 && fpos)) && iv < 60000 {
        Some(iv - 2)
    } else {
        None
    };
    proof {
        let ivx = trunc_value(d, px);
        if pdec as int == px {
            assert(fpos == frac_positive(d, px)) by {
                if fpos {
                    let k = choose|k: int| fstart <= k < dl && digit_val(#[trigger] mant@[k]) > 0;
                    assert(digit_val(d[k]) > 0);
                }
            }
        } else if px <= 0 && pdec <= 0 {
            assert(ivx == 0);
            assert(iv == 0);
            assert(fpos == frac_positive(d, px)) by {
                if fpos {
                    let k = choose|k: int| fstart <= k < dl && digit_val(#[trigger] mant@[k]) > 0;
                    assert(digit_val(d[k]) > 0);
                }
            }
        } else {
            assert(px >= d.len() + 5 && pdec as int >= d.len() + 5);
            assert(fstart == dl);
            assert(!fpos);
            assert(!frac_positive(d, px));
            lemma_trunc_huge(d, px);
            lemma_trunc_huge(d, pdec as int);
            if digits_value(d) == 0 {
                assert(ivx == 0);
                assert(iv == 0);
            } else {
                assert(ivx > 60000);
                assert(iv > 60000);
            }
        }
    }
    res
}

/// What a day count formats to; the rendering is chrono's, a function of
/// the count alone.
pub uninterp spec fn serial_date_chars(days: u64) -> Seq<char>;

/// Relies on chrono's `NaiveDate`: 1900-01-01 is a valid date, adding a
/// day count far below chrono's maximum year succeeds, and `%d.%m.%Y`
/// formatting depends on the resulting date alone.
#[verifier::external_body]
fn serial_to_date_string(days: u64) -> (r: Option<String>)
    ensures
        r matches Some(s) ==> s@ == serial_date_chars(days),
        days < 60000 ==> r is Some,
{
    chrono::NaiveDate::from_ymd_opt(1900, 1, 1)
        .and_then(|d| d.checked_add_days(chrono::Days::new(days)))
        .map(|d| d.format("%d.%m.%Y").to_string())
}

/// What the worksheet decoder shows for a raw numeric cell: the serial
/// date when the window matches, the trimmed text otherwise.
pub open spec fn excel_value_spec(s: Seq<char>) -> Seq<char> {
    match serial_days_spec(s) {
        Some(d) => serial_date_chars(d),
        None => trim_spec(s),
    }
}

/// Formats a worksheet cell's raw text: a serial date inside the window
/// becomes `DD.MM.YYYY`, anything else is returned trimmed.
pub fn format_excel_value(v: &Vec<char>) -> (r: String)
    ensures
        r@ == excel_value_spec(v@),
{
    match classify_serial(v) {
        Some(days) => {
            proof {
                assert(days < 60000);
            }
            match serial_to_date_string(days) {
                Some(s) => s,
                None => {
                    proof {
                        assert(false);
                    }
                    String::new()
                },
            }
        },
        None => {
            let t = trim_chars(v);
            chars_to_string(&t)
        },
    }
}

/// What a float-typed content cell shows: the serial date when the window
/// matches, the text unchanged otherwise.
pub open spec fn ods_float_spec(s: Seq<char>) -> Seq<char> {
    match serial_days_spec(s) {
        Some(d) => serial_date_chars(d),
        None => s,
    }
}

/// Formats a float-typed content cell's value attribute: a serial date
/// inside the window becomes `DD.MM.YYYY`, anything else is returned
/// unchanged.
pub fn format_excel_float_as_date(v: &Vec<char>) -> (r: String)
    ensures
        r@ == ods_float_spec(v@),
{
    match classify_serial(v) {
        Some(days) => {
            proof {
                assert(days < 60000);
            }
            match serial_to_date_string(days) {
                Some(s) => s,
                None => {
                    proof {
                        assert(false);
                    }
                    String::new()
                },
            }
        },
        None => chars_to_string(v),
    }
}


/// Index of the first dash of `s`, or `-1` when it has none.
pub open spec fn first_dash(s: Seq<char>) -> int
    decreases s.len(),
{
    if s.len() == 0 {
        -1
    } else if s[0] == '-' {
        0
    } else {
        let r = first_dash(s.subrange(1, s.len() as int));
        if r < 0 {
            -1
        } else {
            r + 1
        }
    }
}

proof fn lemma_first_dash_at(s: Seq<char>, i: int)
    requires
        0 <= i <= s.len(),
        forall|k: int| 0 <= k < i ==> s[k] != '-',
        i < s.len() ==> s[i] == '-',
    ensures
        first_dash(s) == if i < s.len() {
            i
        } else {
            -1
        },
    decreases i,
{
    if i > 0 {
        let t = s.subrange(1, s.len() as int);
        lemma_first_dash_at(t, i - 1);
    }
}

/// A leap year of the Gregorian calendar.
pub open spec fn is_leap_year(y: int) -> bool {
    y % 4 == 0 && (y % 100 != 0 || y % 400 == 0)
}

/// How many days month `m` of year `y` has.
pub open spec fn days_in_month(y: int, m: int) -> int {
    if m == 2 {
        if is_leap_year(y) {
            29
        } else {
            28
        }
    } else if m == 4 || m == 6 || m == 9 || m == 11 {
        30
    } else {
        31
    }
}

/// An ISO `year-month-day` date string: one to four year digits, one or
/// two month digits, one or two day digits, naming a valid calendar date.
pub open spec fn iso_date_spec(s: Seq<char>) -> Option<(int, int, int)> {
    let p1 = first_dash(s);
    if p1 < 1 || p1 > 4 || p1 + 1 >= s.len() {
        None
    } else {
        let rest = s.subrange(p1 + 1, s.len() as int);
        let p2 = first_dash(rest);
        if p2 < 1 || p2 > 2 {
            None
        } else {
            let ys = s.subrange(0, p1);
            let ms = rest.subrange(0, p2);
            let ds = rest.subrange(p2 + 1, rest.len() as int);
            if all_digits(ys) && all_digits(ms) && ds.len() >= 1 && ds.len() <= 2 && all_digits(
                ds,
            ) {
                let y = digits_value(ys) as int;
                let m = digits_value(ms) as int;
                let d = digits_value(ds) as int;
                if 1 <= m <= 12 && 1 <= d <= days_in_month(y, m) {
                    Some((y, m, d))
                } else {
                    None
                }
            } else {
                None
            }
        }
    }
}

/// The character of one decimal digit value.
pub open spec fn digit_char_of(d: int) -> char {
    ((0x30 + d) as u8) as char
}

/// `v` as two zero-padded digits.
pub open spec fn two_digits(v: int) -> Seq<char> {
    seq![digit_char_of(v / 10), digit_char_of(v % 10)]
}

/// `v` as four zero-padded digits.
pub open spec fn four_digits(v: int) -> Seq<char> {
    seq![
        digit_char_of(v / 1000),
        digit_char_of((v / 100) % 10),
        digit_char_of((v / 10) % 10),
        digit_char_of(v % 10),
    ]
}

/// A date formatted `DD.MM.YYYY`.
pub open spec fn dmy_chars(d: int, m: int, y: int) -> Seq<char> {
    two_digits(d) + seq!['.'] + two_digits(m) + seq!['.'] + four_digits(y)
}

/// What the content decoder shows for a date: the `DD.MM.YYYY` rendering
/// of an ISO date string, or the text unchanged when it is not one.
pub open spec fn ods_date_spec(s: Seq<char>) -> Seq<char> {
    match iso_date_spec(s) {
        Some((y, m, d)) => dmy_chars(d, m, y),
        None => s,
    }
}

/// Pushes `v` as `width` zero-padded decimal digits.
fn push_digits(out: &mut Vec<char>, v: u64, width: u64)
    requires
        width == 2 || width == 4,
        v < 10000,
        width == 2 ==> v < 100,
    ensures
        width == 2 ==> final(out)@ == old(out)@ + two_digits(v as int),
        width == 4 ==> final(out)@ == old(out)@ + four_digits(v as int),
{
    let ghost o0 = out@;
    if width == 4 {
        let d0: u64 = v / 1000;
        let c0: char = ((0x30 + d0) as u8) as char;
        out.push(c0);
        let d1: u64 = (v / 100) % 10;
        out.push(((0x30 + d1) as u8) as char);
        proof {
            assert(d0 as int == (v as int) / 1000) by (nonlinear_arith)
                requires
                    d0 == v / 1000,
                    v < 10000,
            ;
            assert(d1 as int == ((v as int) / 100) % 10) by (nonlinear_arith)
                requires
                    d1 == (v / 100) % 10,
                    v < 10000,
            ;
        }
    }
    let d2: u64 = (v / 10) % 10;
    out.push(((0x30 + d2) as u8) as char);
    let d3: u64 = v % 10;
    out.push(((0x30 + d3) as u8) as char);
    proof {
        assert(d2 as int == ((v as int) / 10) % 10) by (nonlinear_arith)
            requires
                d2 == (v / 10) % 10,
                v < 10000,
        ;
        assert(d3 as int == (v as int) % 10) by (nonlinear_arith)
            requires
                d3 == v % 10,
                v < 10000,
        ;
        if width == 2 {
            assert((v as int) / 10 < 10);
            assert(((v as int) / 10) % 10 == (v as int) / 10);
            assert(out@ =~= o0 + two_digits(v as int));
        } else {
            assert(out@ =~= o0 + four_digits(v as int));
        }
    }
}

/// Formats a date-typed value: an ISO `year-month-day` string becomes
/// `DD.MM.YYYY`; anything else is returned unchanged.
#[verifier::loop_isolation(false)]
#[verifier::rlimit(60)]
pub fn format_ods_date(v: &Vec<char>) -> (r: String)
    ensures
        r@ == ods_date_spec(v@),
{
    let n = v.len();
    let mut p1: usize = 0;
    while p1 < n && v[p1] != '-'
        invariant
            0 <= p1 <= n,
            forall|k: int| 0 <= k < p1 ==> v@[k] != '-',
        decreases n - p1,
    {
        p1 = p1 + 1;
    }
    proof {
        lemma_first_dash_at(v@, p1 as int);
    }
    if p1 == n || p1 < 1 || p1 > 4 || p1 + 1 >= n {
        return chars_to_string(v);
    }
    let ghost rest = v@.subrange(p1 + 1, n as int);
    let mut p2: usize = p1 + 1;
    while p2 < n && v[p2] != '-'
        invariant
            p1 + 1 <= p2 <= n,
            forall|k: int| p1 + 1 <= k < p2 ==> v@[k] != '-',
        decreases n - p2,
    {
        p2 = p2 + 1;
    }
    proof {
        assert forall|k: int| 0 <= k < p2 - p1 - 1 implies rest[k] != '-' by {
            assert(rest[k] == v@[p1 + 1 + k]);
        }
        if p2 < n {
            assert(rest[p2 - p1 - 1] == v@[p2 as int]);
        }
        lemma_first_dash_at(rest, p2 - p1 - 1);
    }
    let rel2 = p2 - p1;
    if p2 == n || rel2 < 2 || rel2 > 3 {
        return chars_to_string(v);
    }
    let ghost ys = v@.subrange(0, p1 as int);
    let ghost ms = rest.subrange(0, p2 - p1 - 1);
    let ghost ds = rest.subrange(p2 - p1, rest.len() as int);
    proof {
        assert(ms =~= v@.subrange(p1 + 1, p2 as int));
        assert(ds =~= v@.subrange(p2 + 1, n as int));
    }
    let ylen = p1;
    let dlen = n - p2 - 1;
    if dlen < 1 || dlen > 2 {
        return chars_to_string(v);
    }
    let yv = match scan_all_digits(v, 0, p1) {
        Some(x) => x,
        None => {
            return chars_to_string(v);
        },
    };
    let mv = match scan_all_digits(v, p1 + 1, p2) {
        Some(x) => x,
        None => {
            return chars_to_string(v);
        },
    };
    let dv = match scan_all_digits(v, p2 + 1, n) {
        Some(x) => x,
        None => {
            return chars_to_string(v);
        },
    };
    if !(1 <= mv && mv <= 12) {
        return chars_to_string(v);
    }
    let leap = (yv % 4 == 0) && (yv % 100 != 0 || yv % 400 == 0);
    let dim: u64 = if mv == 2 {
        if leap {
            29
        } else {
            28
        }
    } else if mv == 4 || mv == 6 || mv == 9 || mv == 11 {
        30
    } else {
        31
    };
    proof {
        assert(leap == is_leap_year(yv as int));
        assert(dim as int == days_in_month(yv as int, mv as int));
    }
    if !(1 <= dv && dv <= dim) {
        return chars_to_string(v);
    }
    let mut out: Vec<char> = Vec::new();
    push_digits(&mut out, dv, 2);
    out.push('.');
    push_digits(&mut out, mv, 2);
    out.push('.');
    push_digits(&mut out, yv, 4);
    proof {
        assert(out@ =~= dmy_chars(dv as int, mv as int, yv as int));
    }
    chars_to_string(&out)
}

/// Reads `v[from..to]` as digits; `None` when a character is not a digit.
/// The span is at most four digits long, so the value is exact.
#[verifier::loop_isolation(false)]
fn scan_all_digits(v: &Vec<char>, from: usize, to: usize) -> (r: Option<u64>)
    requires
        from <= to <= v@.len(),
        to - from <= 4,
    ensures
        ({
            let d = v@.subrange(from as int, to as int);
            match r {
                Some(x) => all_digits(d) && digits_value(d) == x && x < 10000,
                None => !all_digits(d),
            }
        }),
{
    let ghost d = v@.subrange(from as int, to as int);
    let mut x: u64 = 0;
    let mut i: usize = from;
    proof {
        assert(d.take(0) =~= Seq::<char>::empty());
    }
    while i < to
        invariant
            from <= i <= to,
            all_digits(d.take(i - from)),
            x == digits_value(d.take(i - from)),
            x < if i - from == 0 {
                1int
            } else if i - from == 1 {
                10int
            } else if i - from == 2 {
                100int
            } else if i - from == 3 {
                1000int
            } else {
                10000int
            },
        decreases to - i,
    {
        let c = v[i];
        proof {
            lemma_digits_value_take_rel(d, i - from);
            assert(d[i - from] == v@[i as int]);
        }
        if !digit_char(c) {
            proof {
                assert(!all_digits(d)) by {
                    assert(d[i - from] == c);
                }
            }
            return None;
        }
        x = x * 10 + ((c as u32) - 0x30) as u64;
        i = i + 1;
    }
    proof {
        assert(d.take(to - from) =~= d);
    }
    Some(x)
}

} // verus!
