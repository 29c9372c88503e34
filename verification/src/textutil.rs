//! Small helpers on byte strings.
//!
//! Text handled by the cluster (filenames, hostnames, table rows) is ASCII,
//! so it is carried as bytes throughout the verified core.

use vstd::prelude::*;

verus! {

/// The byte string with one trailing line feed removed, and after that one
/// trailing carriage return removed: the result of trimming a Unix or
/// Windows line ending.
pub open spec fn spec_trim_newline(s: Seq<u8>) -> Seq<u8> {
    let after_lf = if s.len() > 0 && s[s.len() - 1] == 10 {
        s.drop_last()
    } else {
        s
    };
    if after_lf.len() > 0 && after_lf[after_lf.len() - 1] == 13 {
        after_lf.drop_last()
    } else {
        after_lf
    }
}

/// Index of the first occurrence of `b`, or the length when there is
/// none.
pub open spec fn first_of(s: Seq<u8>, b: u8) -> int
    decreases s.len(),
{
    if s.len() == 0 {
        0
    } else if s[0] == b {
        0
    } else {
        1 + first_of(s.drop_first(), b)
    }
}

pub proof fn lemma_first_of(s: Seq<u8>, b: u8)
    ensures
        0 <= first_of(s, b) <= s.len(),
        forall|i: int| 0 <= i < first_of(s, b) ==> s[i] != b,
        first_of(s, b) < s.len() ==> s[first_of(s, b)] == b,
    decreases s.len(),
{
    if s.len() > 0 && s[0] != b {
        lemma_first_of(s.drop_first(), b);
        assert forall|i: int| 0 <= i < first_of(s, b) implies s[i] != b by {
            if i > 0 {
                assert(s.drop_first()[i - 1] != b);
            }
        }
    }
}

/// The bytes from `start` up to the next occurrence of `delim`.
pub fn take_until(s: &Vec<u8>, start: usize, delim: u8) -> (r: Vec<u8>)
    requires
        start <= s@.len(),
    ensures
        r@ == ({
            let rest = s@.skip(start as int);
            rest.take(first_of(rest, delim))
        }),
{
    let ghost rest = s@.skip(start as int);
    proof {
        lemma_first_of(rest, delim);
    }
    let n = s.len();
    let mut out: Vec<u8> = Vec::new();
    let mut i = start;
    while i < n && s[i] != delim
        invariant
            start <= i <= n,
            n == s@.len(),
            rest == s@.skip(start as int),
            i - start <= first_of(rest, delim),
            out@ == rest.take(i - start),
            forall|k: int| 0 <= k < i - start ==> rest[k] != delim,
        decreases n - i,
    {
        out.push(s[i]);
        i += 1;
        proof {
            lemma_first_of(rest, delim);
            assert(rest[i - start - 1] == s@[i - 1]);
            assert(out@ =~= rest.take(i - start));
            if i - start > first_of(rest, delim) {
                assert(rest[first_of(rest, delim)] == delim);
            }
        }
    }
    proof {
        if i < n {
            assert(rest[i - start] == s@[i as int]);
            assert(i - start == first_of(rest, delim));
        } else {
            assert(i - start == rest.len());
            assert(first_of(rest, delim) == rest.len());
        }
    }
    out
}

/// The bytes from `start` to the end.
pub fn copy_tail(v: &Vec<u8>, start: usize) -> (r: Vec<u8>)
    requires
        start <= v@.len(),
    ensures
        r@ == v@.skip(start as int),
{
    let n = v.len();
    let mut out: Vec<u8> = Vec::new();
    let mut i = start;
    while i < n
        invariant
            start <= i <= n,
            n == v@.len(),
            out@ == v@.subrange(start as int, i as int),
        decreases n - i,
    {
        out.push(v[i]);
        i += 1;
        proof {
            assert(out@ =~= v@.subrange(start as int, i as int));
        }
    }
    proof {
        assert(out@ =~= v@.skip(start as int));
    }
    out
}

/// Whether every byte is an ASCII digit.
pub open spec fn all_digits(s: Seq<u8>) -> bool {
    forall|k: int| 0 <= k < s.len() ==> 48 <= #[trigger] s[k] <= 57
}

/// The number an ASCII digit string denotes.
pub open spec fn digits_value(s: Seq<u8>) -> int
    decreases s.len(),
{
    if s.len() == 0 {
        0
    } else {
        digits_value(s.drop_last()) * 10 + (s.last() - 48)
    }
}

/// The number a short decimal field denotes: one to three digits, or -1
/// for anything else.
pub open spec fn spec_decimal_value(s: Seq<u8>) -> int {
    if 1 <= s.len() <= 3 && all_digits(s) {
        digits_value(s)
    } else {
        -1
    }
}

/// Read a short decimal field.
pub fn parse_small_decimal(s: &Vec<u8>) -> (r: Option<u16>)
    ensures
        match r {
            Some(v) => spec_decimal_value(s@) == v as int,
            None => spec_decimal_value(s@) == -1,
        },
{
    let n = s.len();
    if n < 1 || n > 3 {
        return None;
    }
    let mut value: u16 = 0;
    let mut i: usize = 0;
    while i < n
        invariant
            1 <= n <= 3,
            n == s@.len(),
            i <= n,
            value == digits_value(s@.subrange(0, i as int)),
            i == 0 ==> value == 0,
            i <= 1 ==> value <= 9,
            i <= 2 ==> value <= 99,
            value <= 999,
            forall|k: int| 0 <= k < i ==> 48 <= #[trigger] s@[k] <= 57,
        decreases n - i,
    {
        let b = s[i];
        if b < 48 || b > 57 {
            proof {
                assert(!all_digits(s@));
            }
            return None;
        }
        proof {
            let pre = s@.subrange(0, i + 1 as int);
            assert(pre.drop_last() =~= s@.subrange(0, i as int));
            assert(pre.last() == s@[i as int]);
        }
        value = value * 10 + (b - 48) as u16;
        i += 1;
    }
    proof {
        assert(s@.subrange(0, n as int) =~= s@);
        assert(all_digits(s@));
    }
    Some(value)
}

/// Compare two byte strings by content.
pub fn bytes_eq(a: &Vec<u8>, b: &Vec<u8>) -> (r: bool)
    ensures
        r == (a@ == b@),
{
    if a.len() != b.len() {
        return false;
    }
    let n = a.len();
    for i in 0..n
        invariant
            n == a@.len(),
            n == b@.len(),
            forall|j: int| 0 <= j < i ==> a@[j] == b@[j],
    {
        if a[i] != b[i] {
            return false;
        }
    }
    proof {
        assert(a@ =~= b@);
    }
    true
}

/// Trim a trailing `\n` (and a `\r` before it) in place.
pub fn trim_newline(string: &mut Vec<u8>)
    ensures
        final(string)@ == spec_trim_newline(old(string)@),
{
    if string.len() > 0 && string[string.len() - 1] == 10 {
        string.pop();
    }
    if string.len() > 0 && string[string.len() - 1] == 13 {
        string.pop();
    }
}

} // verus!
