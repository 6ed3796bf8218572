//! Character-level scanning over a source held as a vector of chars.
//!
//! Every scanner here works on a half-open range `[i, hi)` of one sequence and
//! returns a position in it, so that lines and tokens never need to be copied.
use vstd::prelude::*;

verus! {

/// The characters that Rust's `char::is_whitespace` accepts (Unicode White_Space).
pub open spec fn is_ws(c: char) -> bool {
    let u = c as u32;
    (9 <= u && u <= 13) || u == 32 || u == 0x85 || u == 0xA0 || u == 0x1680
        || (0x2000 <= u && u <= 0x200A) || u == 0x2028 || u == 0x2029 || u == 0x202F
        || u == 0x205F || u == 0x3000
}

/// First position at or after `i` in `[i, hi)` that holds no whitespace, or `hi`.
pub open spec fn skip_ws(s: Seq<char>, i: int, hi: int) -> int
    decreases hi - i,
{
    if i < hi && is_ws(s[i]) {
        skip_ws(s, i + 1, hi)
    } else {
        i
    }
}

/// First position at or after `i` in `[i, hi)` that holds whitespace, or `hi`.
pub open spec fn skip_word(s: Seq<char>, i: int, hi: int) -> int
    decreases hi - i,
{
    if i < hi && !is_ws(s[i]) {
        skip_word(s, i + 1, hi)
    } else {
        i
    }
}

/// End of `[lo, hi)` once trailing whitespace is dropped.
pub open spec fn trim_end(s: Seq<char>, lo: int, hi: int) -> int
    decreases hi - lo,
{
    if lo < hi && is_ws(s[hi - 1]) {
        trim_end(s, lo, hi - 1)
    } else {
        hi
    }
}

/// First position of `c` in `[i, hi)`, or `hi` when it does not occur there.
pub open spec fn find(s: Seq<char>, i: int, hi: int, c: char) -> int
    decreases hi - i,
{
    if i < hi && s[i] != c {
        find(s, i + 1, hi, c)
    } else {
        i
    }
}

pub proof fn lemma_skip_ws_bounds(s: Seq<char>, i: int, hi: int)
    requires
        i <= hi,
    ensures
        i <= skip_ws(s, i, hi) <= hi,
        skip_ws(s, i, hi) < hi ==> !is_ws(s[skip_ws(s, i, hi)]),
    decreases hi - i,
{
    if i < hi && is_ws(s[i]) {
        lemma_skip_ws_bounds(s, i + 1, hi);
    }
}

pub proof fn lemma_skip_word_bounds(s: Seq<char>, i: int, hi: int)
    requires
        i <= hi,
    ensures
        i <= skip_word(s, i, hi) <= hi,
    decreases hi - i,
{
    if i < hi && !is_ws(s[i]) {
        lemma_skip_word_bounds(s, i + 1, hi);
    }
}

pub proof fn lemma_trim_end_bounds(s: Seq<char>, lo: int, hi: int)
    requires
        lo <= hi,
    ensures
        lo <= trim_end(s, lo, hi) <= hi,
    decreases hi - lo,
{
    if lo < hi && is_ws(s[hi - 1]) {
        lemma_trim_end_bounds(s, lo, hi - 1);
    }
}

/// Trimming the end of a range never cuts off a character that is not whitespace.
pub proof fn lemma_trim_end_keeps(s: Seq<char>, lo: int, hi: int, j: int)
    requires
        lo <= j < hi,
        !is_ws(s[j]),
    ensures
        j < trim_end(s, lo, hi),
    decreases hi - lo,
{
    if lo < hi && is_ws(s[hi - 1]) {
        lemma_trim_end_keeps(s, lo, hi - 1, j);
    }
}

/// Whether `c` is whitespace, as `char::is_whitespace` decides it.
pub fn is_space(c: char) -> (r: bool)
    ensures
        r == is_ws(c),
{
    let u = c as u32;
    (9 <= u && u <= 13) || u == 32 || u == 0x85 || u == 0xA0 || u == 0x1680
        || (0x2000 <= u && u <= 0x200A) || u == 0x2028 || u == 0x2029 || u == 0x202F
        || u == 0x205F || u == 0x3000
}

pub fn skip_space(s: &Vec<char>, i: usize, hi: usize) -> (r: usize)
    requires
        i <= hi <= s.len(),
    ensures
        r == skip_ws(s@, i as int, hi as int),
        i <= r <= hi,
        r < hi ==> !is_ws(s@[r as int]),
{
    let mut k = i;
    while k < hi && is_space(s[k])
        invariant
            i <= k <= hi <= s.len(),
            skip_ws(s@, k as int, hi as int) == skip_ws(s@, i as int, hi as int),
        decreases hi - k,
    {
        k = k + 1;
    }
    proof {
        lemma_skip_ws_bounds(s@, i as int, hi as int);
    }
    k
}

pub fn skip_nonspace(s: &Vec<char>, i: usize, hi: usize) -> (r: usize)
    requires
        i <= hi <= s.len(),
    ensures
        r == skip_word(s@, i as int, hi as int),
        i <= r <= hi,
{
    let mut k = i;
    while k < hi && !is_space(s[k])
        invariant
            i <= k <= hi <= s.len(),
            skip_word(s@, k as int, hi as int) == skip_word(s@, i as int, hi as int),
        decreases hi - k,
    {
        k = k + 1;
    }
    k
}

pub fn trim_space_end(s: &Vec<char>, lo: usize, hi: usize) -> (r: usize)
    requires
        lo <= hi <= s.len(),
    ensures
        r == trim_end(s@, lo as int, hi as int),
        lo <= r <= hi,
{
    let mut k = hi;
    while k > lo && is_space(s[k - 1])
        invariant
            lo <= k <= hi <= s.len(),
            trim_end(s@, lo as int, k as int) == trim_end(s@, lo as int, hi as int),
        decreases k - lo,
    {
        k = k - 1;
    }
    k
}

pub fn find_char(s: &Vec<char>, i: usize, hi: usize, c: char) -> (r: usize)
    requires
        i <= hi <= s.len(),
    ensures
        r == find(s@, i as int, hi as int, c),
        i <= r <= hi,
{
    let mut k = i;
    while k < hi && s[k] != c
        invariant
            i <= k <= hi <= s.len(),
            find(s@, k as int, hi as int, c) == find(s@, i as int, hi as int, c),
        decreases hi - k,
    {
        k = k + 1;
    }
    k
}

/// Whether `s[a..b]` and `s[c..d]` hold the same characters.
pub fn same_range(s: &Vec<char>, a: usize, b: usize, c: usize, d: usize) -> (r: bool)
    requires
        a <= b <= s.len(),
        c <= d <= s.len(),
    ensures
        r == (s@.subrange(a as int, b as int) == s@.subrange(c as int, d as int)),
{
    if b - a != d - c {
        proof {
            assert(s@.subrange(a as int, b as int).len() != s@.subrange(c as int, d as int).len());
        }
        return false;
    }
    let mut k: usize = 0;
    while k < b - a
        invariant
            a <= b <= s.len(),
            c <= d <= s.len(),
            b - a == d - c,
            k <= b - a,
            forall|j: int| 0 <= j < k ==> #[trigger] s@.subrange(a as int, b as int)[j] == s@.subrange(c as int, d as int)[j],
        decreases b - a - k,
    {
        if s[a + k] != s[c + k] {
            proof {
                assert(s@.subrange(a as int, b as int)[k as int] != s@.subrange(c as int, d as int)[k as int]);
            }
            return false;
        }
        k = k + 1;
    }
    assert(s@.subrange(a as int, b as int) =~= s@.subrange(c as int, d as int));
    true
}

/// The characters of `src`, one by one.
pub fn chars_of(src: &str) -> (r: Vec<char>)
    ensures
        r@ == src@,
{
    let mut v: Vec<char> = Vec::new();
    for c in it: src.chars()
        invariant
            it.seq() == src@,
            v@ == src@.subrange(0, it.index() as int),
    {
        v.push(c);
    }
    assert(v@ =~= src@);
    v
}

} // verus!
