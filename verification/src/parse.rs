//! Taking in an externally supplied prime list: each line must be a valid
//! unsigned decimal integer; any other content is a fatal data error and no
//! partial set is produced.

use vstd::prelude::*;
use vstd::arithmetic::div_mod::{lemma_fundamental_div_mod, lemma_mod_bound};
use crate::prime_set::PrimeSet;

verus! {

/// An ASCII decimal digit.
pub open spec fn is_ascii_digit(b: u8) -> bool {
    48 <= b <= 57
}

/// A non-empty run of ASCII digits.
pub open spec fn digit_seq(s: Seq<u8>) -> bool {
    s.len() > 0 && forall|i: int| 0 <= i < s.len() ==> is_ascii_digit(#[trigger] s[i])
}

/// The number the digits spell out, most significant first.
pub open spec fn digits_value(s: Seq<u8>) -> int
    decreases s.len(),
{
    if s.len() == 0 {
        0
    } else {
        10 * digits_value(s.drop_last()) + (s.last() - 48)
    }
}

/// A line that can be taken in: a digit run whose value fits in a `u64`.
pub open spec fn valid_line(s: Seq<u8>) -> bool {
    digit_seq(s) && digits_value(s) <= u64::MAX as int
}

/// Line `li` of `lines` is well formed and spells out `v`.
pub open spec fn line_parses_to(lines: Seq<Vec<u8>>, li: int, v: u64) -> bool {
    0 <= li < lines.len() && valid_line(lines[li]@) && digits_value(lines[li]@) == v as int
}

/// The error for a prime list that is not a list of unsigned integers,
/// carrying the index of the first offending line.
#[derive(Clone, Copy, PartialEq, Eq, Structural, Debug)]
pub enum DataError {
    InvalidLine(usize),
}

proof fn lemma_digits_value_nonneg(s: Seq<u8>)
    requires
        forall|i: int| 0 <= i < s.len() ==> is_ascii_digit(#[trigger] s[i]),
    ensures
        digits_value(s) >= 0,
    decreases s.len(),
{
    if s.len() > 0 {
        assert(is_ascii_digit(s[s.len() - 1]));
        lemma_digits_value_nonneg(s.drop_last());
    }
}

/// A prefix of a digit run never spells out more than the whole run.
proof fn lemma_digits_prefix_le(s: Seq<u8>, k: int)
    requires
        forall|i: int| 0 <= i < s.len() ==> is_ascii_digit(#[trigger] s[i]),
        0 <= k <= s.len(),
    ensures
        digits_value(s.take(k)) <= digits_value(s),
    decreases s.len() - k,
{
    if k == s.len() {
        assert(s.take(k) =~= s);
    } else {
        let t = s.take(k);
        let t1 = s.take(k + 1);
        assert(t1.drop_last() =~= t);
        assert(t1.last() == s[k]);
        assert forall|i: int| 0 <= i < t.len() implies is_ascii_digit(#[trigger] t[i]) by {
            assert(t[i] == s[i]);
        }
        lemma_digits_value_nonneg(t);
        assert(is_ascii_digit(s[k]));
        assert(digits_value(t1) == 10 * digits_value(t) + (s[k] - 48));
        assert(digits_value(t) <= digits_value(t1));
        lemma_digits_prefix_le(s, k + 1);
    }
}

/// Parse a line as an unsigned decimal integer. Succeeds exactly when the
/// bytes are a non-empty digit run whose value fits in a `u64`, and then
/// returns that value.
pub fn parse_u64(bytes: &Vec<u8>) -> (r: Option<u64>)
    ensures
        match r {
            Some(v) => digit_seq(bytes@) && digits_value(bytes@) == v as int,
            None => !valid_line(bytes@),
        },
{
    let m = bytes.len();
    if m == 0 {
        return None;
    }
    let mut acc: u64 = 0;
    let mut i: usize = 0;
    while i < m
        invariant
            m == bytes@.len(),
            0 < m,
            i <= m,
            forall|k: int| 0 <= k < i ==> is_ascii_digit(#[trigger] bytes@[k]),
            acc as int == digits_value(bytes@.take(i as int)),
        decreases m - i,
    {
        let b = bytes[i];
        if b < 48 || b > 57 {
            proof {
                assert(!is_ascii_digit(bytes@[i as int]));
            }
            return None;
        }
        let d = (b - 48) as u64;
        proof {
            let t = bytes@.take(i as int);
            let t1 = bytes@.take(i as int + 1);
            assert(t1.drop_last() =~= t);
            assert(t1.last() == bytes@[i as int]);
            assert(digits_value(t1) == 10 * acc + d);
            lemma_fundamental_div_mod(u64::MAX - d, 10);
            lemma_mod_bound(u64::MAX - d, 10);
        }
        if acc > (u64::MAX - d) / 10 {
            proof {
                // Even this prefix overflows, and further digits only grow
                // the value, so the whole line cannot fit.
                if valid_line(bytes@) {
                    lemma_digits_prefix_le(bytes@, i as int + 1);
                }
            }
            return None;
        }
        acc = acc * 10 + d;
        i = i + 1;
    }
    proof {
        assert(bytes@.take(m as int) =~= bytes@);
    }
    Some(acc)
}

/// A successful load: every line was valid, and the set holds exactly the
/// values the lines spell out.
pub open spec fn load_ok(lines: Seq<Vec<u8>>, s: PrimeSet) -> bool {
    &&& s.wf()
    &&& forall|li: int| 0 <= li < lines.len() ==> valid_line((#[trigger] lines[li])@)
    &&& forall|v: u64|
        (#[trigger] s@.contains(v)) <==> exists|li: int| #[trigger] line_parses_to(lines, li, v)
}

/// A failed load: the error names the first line that is not a valid
/// unsigned integer.
pub open spec fn load_failure(lines: Seq<Vec<u8>>, e: DataError) -> bool {
    &&& e matches DataError::InvalidLine(li)
    &&& 0 <= li < lines.len()
    &&& !valid_line(lines[li as int]@)
    &&& forall|j: int| 0 <= j < li ==> valid_line((#[trigger] lines[j])@)
}

/// Build a prime set from the lines of an external prime list. Every line
/// must be a valid unsigned integer; duplicates are deduplicated by set
/// semantics. A single bad line aborts the whole load with the index of the
/// first offender and no partial set.
pub fn primes_from_lines(lines: &Vec<Vec<u8>>) -> (r: Result<PrimeSet, DataError>)
    ensures
        match r {
            Ok(s) => load_ok(lines@, s),
            Err(e) => load_failure(lines@, e),
        },
{
    let mut s = PrimeSet::new();
    let mut li: usize = 0;
    while li < lines.len()
        invariant
            li <= lines@.len(),
            s.wf(),
            forall|j: int| 0 <= j < li ==> valid_line((#[trigger] lines@[j])@),
            forall|v: u64|
                (#[trigger] s@.contains(v)) <==> exists|j: int|
                    j < li && #[trigger] line_parses_to(lines@, j, v),
        decreases lines@.len() - li,
    {
        match parse_u64(&lines[li]) {
            Some(v) => {
                s.insert(v);
                proof {
                    assert(line_parses_to(lines@, li as int, v));
                    assert forall|w: u64| (#[trigger] s@.contains(w)) implies exists|j: int|
                        j < li + 1 && #[trigger] line_parses_to(lines@, j, w) by {
                        if w == v {
                            assert((li as int) < li + 1 && line_parses_to(lines@, li as int, w));
                        } else {
                            let j = choose|j: int| j < li && #[trigger] line_parses_to(lines@, j, w);
                            assert(j < li + 1 && line_parses_to(lines@, j, w));
                        }
                    }
                    assert forall|w: u64|
                        (exists|j: int| j < li + 1 && #[trigger] line_parses_to(lines@, j, w))
                            implies s@.contains(w) by {
                        let j = choose|j: int| j < li + 1 && #[trigger] line_parses_to(lines@, j, w);
                        if j < li {
                            assert(earlier_line_parses_to(lines@, li as int, w));
                        }
                    }
                }
            },
            None => {
                return Err(DataError::InvalidLine(li));
            },
        }
        li = li + 1;
    }
    Ok(s)
}

/// Some line before `li` spells out `w`.
spec fn earlier_line_parses_to(lines: Seq<Vec<u8>>, li: int, w: u64) -> bool {
    exists|j: int| j < li && #[trigger] line_parses_to(lines, j, w)
}

} // verus!
