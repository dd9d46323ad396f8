//! Character-level text helpers: whitespace trimming, separator search and
//! unsigned decimal parsing, each with its meaning as a spec function.

use vstd::prelude::*;
use vstd::string::StrSliceExecFns;

verus! {

/// Unicode `White_Space` characters (what `char::is_whitespace` accepts).
pub open spec fn is_ws(c: char) -> bool {
    ||| ('\u{9}' <= c && c <= '\u{d}')
    ||| c == ' '
    ||| c == '\u{85}'
    ||| c == '\u{a0}'
    ||| c == '\u{1680}'
    ||| ('\u{2000}' <= c && c <= '\u{200a}')
    ||| c == '\u{2028}'
    ||| c == '\u{2029}'
    ||| c == '\u{202f}'
    ||| c == '\u{205f}'
    ||| c == '\u{3000}'
}

/// Whether `c` is Unicode white space.
pub fn is_whitespace(c: char) -> (r: bool)
    ensures
        r == is_ws(c),
{
    ('\u{9}' <= c && c <= '\u{d}') || c == ' ' || c == '\u{85}' || c == '\u{a0}' || c == '\u{1680}'
        || ('\u{2000}' <= c && c <= '\u{200a}') || c == '\u{2028}' || c == '\u{2029}'
        || c == '\u{202f}' || c == '\u{205f}' || c == '\u{3000}'
}

/// `s` without its leading white space.
pub open spec fn trim_front(s: Seq<char>) -> Seq<char>
    decreases s.len(),
{
    if s.len() > 0 && is_ws(s[0]) {
        trim_front(s.drop_first())
    } else {
        s
    }
}

/// `s` without its trailing white space.
pub open spec fn trim_back(s: Seq<char>) -> Seq<char>
    decreases s.len(),
{
    if s.len() > 0 && is_ws(s.last()) {
        trim_back(s.drop_last())
    } else {
        s
    }
}

/// `s` without leading and trailing white space (what `str::trim` gives).
pub open spec fn trim(s: Seq<char>) -> Seq<char> {
    trim_back(trim_front(s))
}

/// The characters of a string.
pub fn chars_of(s: &str) -> (v: Vec<char>)
    ensures
        v@ == s@,
{
    let n = s.unicode_len();
    let mut v: Vec<char> = Vec::new();
    let mut i: usize = 0;
    while i < n
        invariant
            n == s@.len(),
            i <= n,
            v@ == s@.take(i as int),
        decreases n - i,
    {
        let c = s.get_char(i);
        v.push(c);
        proof {
            assert(s@.take(i + 1) =~= s@.take(i as int).push(c));
        }
        i = i + 1;
    }
    assert(s@.take(n as int) =~= s@);
    v
}

proof fn lemma_trim_front_step(s: Seq<char>, a: int, b: int)
    requires
        0 <= a < b <= s.len(),
        is_ws(s[a]),
    ensures
        trim_front(s.subrange(a, b)) == trim_front(s.subrange(a + 1, b)),
{
    assert(s.subrange(a, b).drop_first() =~= s.subrange(a + 1, b));
}

proof fn lemma_trim_back_step(s: Seq<char>, a: int, b: int)
    requires
        0 <= a < b <= s.len(),
        is_ws(s[b - 1]),
    ensures
        trim_back(s.subrange(a, b)) == trim_back(s.subrange(a, b - 1)),
{
    assert(s.subrange(a, b).drop_last() =~= s.subrange(a, b - 1));
}

/// The bounds of `trim` of `s[a..b]`.
pub fn trim_range(s: &Vec<char>, a: usize, b: usize) -> (r: (usize, usize))
    requires
        a <= b <= s@.len(),
    ensures
        a <= r.0 <= r.1 <= b,
        s@.subrange(r.0 as int, r.1 as int) == trim(s@.subrange(a as int, b as int)),
{
    let mut lo = a;
    while lo < b && is_whitespace(s[lo])
        invariant
            a <= lo <= b <= s@.len(),
            trim_front(s@.subrange(a as int, b as int)) == trim_front(s@.subrange(lo as int, b as int)),
        decreases b - lo,
    {
        proof { lemma_trim_front_step(s@, lo as int, b as int); }
        lo = lo + 1;
    }
    assert(trim_front(s@.subrange(lo as int, b as int)) == s@.subrange(lo as int, b as int));
    let mut hi = b;
    while hi > lo && is_whitespace(s[hi - 1])
        invariant
            a <= lo <= hi <= b <= s@.len(),
            trim_back(s@.subrange(lo as int, b as int)) == trim_back(s@.subrange(lo as int, hi as int)),
        decreases hi - lo,
    {
        proof { lemma_trim_back_step(s@, lo as int, hi as int); }
        hi = hi - 1;
    }
    assert(trim_back(s@.subrange(lo as int, hi as int)) == s@.subrange(lo as int, hi as int));
    (lo, hi)
}

/// Position of the first `c` in `s`, or `s.len()` when there is none.
pub open spec fn first_index(s: Seq<char>, c: char) -> int
    decreases s.len(),
{
    if s.len() == 0 {
        0
    } else if s[0] == c {
        0
    } else {
        1 + first_index(s.drop_first(), c)
    }
}

/// `first_index` is the position before which `c` does not occur and at
/// which it does (or the end).
pub proof fn lemma_first_index(s: Seq<char>, c: char, k: int)
    requires
        0 <= k <= s.len(),
        forall|j: int| 0 <= j < k ==> s[j] != c,
        k == s.len() || s[k] == c,
    ensures
        first_index(s, c) == k,
    decreases k,
{
    if k > 0 {
        assert forall|j: int| 0 <= j < k - 1 implies s.drop_first()[j] != c by {
            assert(s.drop_first()[j] == s[j + 1]);
        }
        lemma_first_index(s.drop_first(), c, k - 1);
    }
}

/// Position of the first `c` in `s[a..b]`, relative to `a`, or `b - a`.
pub fn find_char(s: &Vec<char>, a: usize, b: usize, c: char) -> (k: usize)
    requires
        a <= b <= s@.len(),
    ensures
        a <= k <= b,
        k - a == first_index(s@.subrange(a as int, b as int), c),
{
    let mut k = a;
    while k < b && s[k] != c
        invariant
            a <= k <= b <= s@.len(),
            forall|j: int| a <= j < k ==> s@[j] != c,
        decreases b - k,
    {
        k = k + 1;
    }
    proof {
        let t = s@.subrange(a as int, b as int);
        assert forall|j: int| 0 <= j < k - a implies t[j] != c by {
            assert(t[j] == s@[a + j]);
        }
        lemma_first_index(t, c, k - a);
    }
    k
}

/// Whether `c` is an ASCII decimal digit.
pub open spec fn is_digit(c: char) -> bool {
    '0' <= c && c <= '9'
}

/// The value of a string of decimal digits.
pub open spec fn digits_value(s: Seq<char>) -> int
    decreases s.len(),
{
    if s.len() == 0 {
        0
    } else {
        digits_value(s.drop_last()) * 10 + (s.last() as int - '0' as int)
    }
}

/// Every character of `d` is a digit.
pub open spec fn all_digits(d: Seq<char>) -> bool {
    forall|i: int| 0 <= i < d.len() ==> is_digit(#[trigger] d[i])
}

/// `s` without one leading `+`.
pub open spec fn unsigned_digits(s: Seq<char>) -> Seq<char> {
    if s.len() > 0 && s[0] == '+' { s.drop_first() } else { s }
}

/// What `str::parse::<u32>` accepts: an optional `+`, then one or more ASCII
/// digits whose value fits in a `u32`.
pub open spec fn parse_u32_spec(s: Seq<char>) -> Option<u32> {
    let d = unsigned_digits(s);
    if d.len() > 0 && all_digits(d) && digits_value(d) <= u32::MAX {
        Some(digits_value(d) as u32)
    } else {
        None
    }
}

proof fn lemma_digits_value_nonneg(s: Seq<char>)
    requires
        forall|i: int| 0 <= i < s.len() ==> is_digit(#[trigger] s[i]),
    ensures
        digits_value(s) >= 0,
    decreases s.len(),
{
    if s.len() > 0 {
        assert forall|i: int| 0 <= i < s.drop_last().len() implies is_digit(#[trigger] s.drop_last()[i]) by {
            assert(s.drop_last()[i] == s[i]);
        }
        lemma_digits_value_nonneg(s.drop_last());
        assert(is_digit(s[s.len() - 1]));
    }
}

/// Parse `s[a..b]` as `str::parse::<u32>` does.
pub fn parse_u32(s: &Vec<char>, a: usize, b: usize) -> (r: Option<u32>)
    requires
        a <= b <= s@.len(),
    ensures
        r == parse_u32_spec(s@.subrange(a as int, b as int)),
{
    let ghost t = s@.subrange(a as int, b as int);
    let mut start = a;
    if start < b && s[start] == '+' {
        start = start + 1;
    }
    let ghost d = s@.subrange(start as int, b as int);
    assert(d == unsigned_digits(t));
    if start == b {
        return None;
    }
    let mut acc: u64 = 0;
    let mut overflow = false;
    let mut k = start;
    while k < b
        invariant
            a <= start <= k <= b <= s@.len(),
            d == s@.subrange(start as int, b as int),
            t == s@.subrange(a as int, b as int),
            d == unsigned_digits(t),
            d.len() > 0,
            forall|i: int| start <= i < k ==> is_digit(#[trigger] s@[i]),
            !overflow ==> acc == digits_value(s@.subrange(start as int, k as int)),
            !overflow ==> acc <= u32::MAX,
            overflow ==> digits_value(s@.subrange(start as int, k as int)) > u32::MAX,
        decreases b - k,
    {
        let c = s[k];
        if !('0' <= c && c <= '9') {
            proof {
                assert(d[k - start] == c);
                assert(!is_digit(d[k - start]));
                assert(!all_digits(d));
            }
            return None;
        }
        proof {
            assert(s@.subrange(start as int, k + 1).drop_last() =~= s@.subrange(start as int, k as int));
            assert(s@.subrange(start as int, k + 1).last() == c);
            assert forall|i: int| 0 <= i < k - start implies is_digit(#[trigger] s@.subrange(start as int, k as int)[i]) by {
                assert(s@.subrange(start as int, k as int)[i] == s@[start + i]);
            }
            lemma_digits_value_nonneg(s@.subrange(start as int, k as int));
        }
        let dv = (c as u32 - '0' as u32) as u64;
        if !overflow {
            acc = acc * 10 + dv;
            if acc > 0xFFFF_FFFF {
                overflow = true;
            }
        }
        k = k + 1;
    }
    proof {
        assert forall|i: int| 0 <= i < d.len() implies is_digit(#[trigger] d[i]) by {
            assert(d[i] == s@[start + i]);
        }
        assert(all_digits(d));
        assert(s@.subrange(start as int, b as int) == d);
    }
    if overflow {
        None
    } else {
        Some(acc as u32)
    }
}

} // verus!
