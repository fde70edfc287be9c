//! Delimiter sniffing for delimited text input.

use vstd::prelude::*;

verus! {

/// How often byte `b` occurs in `s`.
pub open spec fn count_byte(s: Seq<u8>, b: u8) -> nat
    decreases s.len(),
{
    if s.len() == 0 {
        0
    } else {
        count_byte(s.drop_last(), b) + if s.last() == b {
            1nat
        } else {
            0nat
        }
    }
}

proof fn lemma_count_byte_step(s: Seq<u8>, b: u8, i: int)
    requires
        0 <= i < s.len(),
    ensures
        count_byte(s.take(i + 1), b) == count_byte(s.take(i), b) + if s[i] == b {
            1nat
        } else {
            0nat
        },
{
    let t = s.take(i + 1);
    assert(t.drop_last() =~= s.take(i));
    assert(t.last() == s[i]);
}

/// The delimiter the sniffer picks for a sample: the candidate with the
/// highest occurrence count, candidates ranked semicolon, comma, tab, pipe,
/// earlier candidates winning ties; a sample with no candidate at all falls
/// back to the semicolon.
pub open spec fn sniff_spec(s: Seq<u8>) -> u8 {
    let cs = count_byte(s, 59);
    let cc = count_byte(s, 44);
    let ct = count_byte(s, 9);
    let cp = count_byte(s, 124);
    if cs >= cc && cs >= ct && cs >= cp {
        59
    } else if cc >= ct && cc >= cp {
        44
    } else if ct >= cp {
        9
    } else {
        124
    }
}

/// Counts one byte's occurrences in a sample.
pub fn count_occurrences(s: &[u8], b: u8) -> (n: usize)
    ensures
        n == count_byte(s@, b),
{
    let len = s.len();
    let mut n: usize = 0;
    let mut i: usize = 0;
    while i < len
        invariant
            0 <= i <= len,
            len == s@.len(),
            n == count_byte(s@.take(i as int), b),
            n <= i,
        decreases len - i,
    {
        proof {
            lemma_count_byte_step(s@, b, i as int);
        }
        if s[i] == b {
            n = n + 1;
        }
        i = i + 1;
    }
    proof {
        assert(s@.take(len as int) =~= s@);
    }
    n
}

/// Picks the most plausible field delimiter for a byte sample, as
/// `sniff_spec` states it.
pub fn sniff_delimiter(sample: &[u8]) -> (d: u8)
    ensures
        d == sniff_spec(sample@),
{
    let cs = count_occurrences(sample, 59);
    let cc = count_occurrences(sample, 44);
    let ct = count_occurrences(sample, 9);
    let cp = count_occurrences(sample, 124);
    if cs >= cc && cs >= ct && cs >= cp {
        59
    } else if cc >= ct && cc >= cp {
        44
    } else if ct >= cp {
        9
    } else {
        124
    }
}

} // verus!
