//! Reading unsigned and signed integer literals out of a character range.
use vstd::prelude::*;

verus! {

/// Whether `c` is a digit of base `radix` (bases up to ten).
pub open spec fn is_digit(c: char, radix: int) -> bool {
    48 <= (c as u32) && (c as u32) < 48 + radix
}

pub open spec fn digit_value(c: char) -> int {
    (c as u32) - 48
}

pub open spec fn all_digits(t: Seq<char>, radix: int) -> bool {
    forall|j: int| 0 <= j < t.len() ==> is_digit(#[trigger] t[j], radix)
}

/// The number that the digits `t` spell in base `radix`, most significant first.
pub open spec fn digits_value(t: Seq<char>, radix: int) -> int
    decreases t.len(),
{
    if t.len() == 0 {
        0
    } else {
        radix * digits_value(t.drop_last(), radix) + digit_value(t.last())
    }
}

/// `t` without one leading `+`.
pub open spec fn unplus(t: Seq<char>) -> Seq<char> {
    if t.len() > 0 && t[0] == '+' {
        t.drop_first()
    } else {
        t
    }
}

/// The value of a non-empty run of digits, when it is at most `limit`.
pub open spec fn bounded_value(t: Seq<char>, radix: int, limit: int) -> Option<int> {
    if t.len() > 0 && all_digits(t, radix) && digits_value(t, radix) <= limit {
        Some(digits_value(t, radix))
    } else {
        None
    }
}

/// What `str::parse::<u64>` (radix 10) or `u64::from_str_radix` (radix 8) gives:
/// an optional `+`, then at least one digit, with no overflow.
pub open spec fn unsigned_of(t: Seq<char>, radix: int) -> Option<int> {
    bounded_value(unplus(t), radix, u64::MAX as int)
}

/// What `str::parse::<i64>` gives: an optional sign, then at least one decimal
/// digit, within the range of `i64`.
pub open spec fn signed_of(t: Seq<char>) -> Option<int> {
    if t.len() > 0 && t[0] == '-' {
        match bounded_value(t.drop_first(), 10, 0x8000_0000_0000_0000) {
            Some(v) => Some(-v),
            None => None,
        }
    } else {
        bounded_value(unplus(t), 10, i64::MAX as int)
    }
}

pub proof fn lemma_value_prefix(t: Seq<char>, radix: int, j: int)
    requires
        2 <= radix <= 10,
        all_digits(t, radix),
        0 <= j <= t.len(),
    ensures
        0 <= digits_value(t.subrange(0, j), radix) <= digits_value(t, radix),
    decreases t.len(),
{
    if j == t.len() {
        assert(t.subrange(0, j) =~= t);
        lemma_value_nonneg(t, radix);
    } else {
        let u = t.drop_last();
        assert(u.subrange(0, j) =~= t.subrange(0, j));
        lemma_value_prefix(u, radix, j);
        let v = digits_value(u, radix);
        assert(is_digit(t[t.len() - 1], radix));
        assert(radix * v >= v) by (nonlinear_arith)
            requires
                radix >= 2,
                v >= 0,
        ;
    }
}

pub proof fn lemma_value_nonneg(t: Seq<char>, radix: int)
    requires
        2 <= radix <= 10,
        all_digits(t, radix),
    ensures
        0 <= digits_value(t, radix),
    decreases t.len(),
{
    if t.len() > 0 {
        let u = t.drop_last();
        lemma_value_nonneg(u, radix);
        assert(is_digit(t[t.len() - 1], radix));
        let v = digits_value(u, radix);
        assert(radix * v >= 0) by (nonlinear_arith)
            requires
                radix >= 2,
                v >= 0,
        ;
    }
}

proof fn overflow_rejects(t: Seq<char>, radix: int, limit: int, j: int, prefix: Seq<char>)
    requires
        2 <= radix <= 10,
        0 <= j <= t.len(),
        prefix == t.subrange(0, j),
        digits_value(prefix, radix) > limit,
    ensures
        bounded_value(t, radix, limit) is None,
{
    if all_digits(t, radix) {
        lemma_value_prefix(t, radix, j);
    }
}

/// Reads the digits `s[a..b]` in base `radix`; `None` unless the range is a
/// non-empty run of digits whose value is at most `limit`.
pub fn read_digits(s: &Vec<char>, a: usize, b: usize, radix: u64, limit: u64) -> (r: Option<u64>)
    requires
        a <= b <= s.len(),
        2 <= radix <= 10,
        limit >= 10,
    ensures
        r == (match bounded_value(s@.subrange(a as int, b as int), radix as int, limit as int) {
            Some(v) => Some(v as u64),
            None => None::<u64>,
        }),
        r is Some ==> r->0 <= limit && bounded_value(s@.subrange(a as int, b as int), radix as int, limit as int) == Some(r->0 as int),
{
    let ghost t = s@.subrange(a as int, b as int);
    if a == b {
        return None;
    }
    let mut acc: u64 = 0;
    let mut k: usize = a;
    while k < b
        invariant
            a <= k <= b <= s.len(),
            t == s@.subrange(a as int, b as int),
            2 <= radix <= 10,
            limit >= 10,
            all_digits(s@.subrange(a as int, k as int), radix as int),
            acc as int == digits_value(s@.subrange(a as int, k as int), radix as int),
            acc <= limit,
        decreases b - k,
    {
        let c = s[k];
        let u = c as u32;
        let ghost pre = s@.subrange(a as int, k as int);
        let ghost next = s@.subrange(a as int, k + 1);
        assert(next.drop_last() =~= pre);
        if u < 48 || u >= 48 + radix as u32 {
            proof {
                assert(!is_digit(t[k - a], radix as int));
            }
            return None;
        }
        let d = (u - 48) as u64;
        proof {
            assert(next.last() == s@[k as int]);
            assert(digits_value(next, radix as int) == radix * acc + d);
            assert(t.subrange(0, k + 1 - a) =~= next);
        }
        if acc > limit / radix {
            proof {
                let q = limit / radix;
                vstd::arithmetic::div_mod::lemma_fundamental_div_mod(limit as int, radix as int);
                assert(acc * radix + d > limit) by (nonlinear_arith)
                    requires
                        acc >= q + 1,
                        limit == radix * q + limit % radix,
                        limit % radix < radix,
                        limit % radix >= 0,
                        radix >= 2,
                        d >= 0,
                ;
                overflow_rejects(t, radix as int, limit as int, k + 1 - a, next);
            }
            return None;
        }
        proof {
            assert(acc * radix <= limit) by (nonlinear_arith)
                requires
                    acc <= limit / radix,
                    radix >= 2,
            ;
        }
        if acc * radix > limit - d {
            proof {
                overflow_rejects(t, radix as int, limit as int, k + 1 - a, next);
            }
            return None;
        }
        acc = acc * radix + d;
        k = k + 1;
    }
    assert(s@.subrange(a as int, k as int) =~= t);
    proof {
        lemma_value_nonneg(t, radix as int);
    }
    Some(acc)
}

/// Parses `s[a..b]` as an unsigned literal in base `radix`: an optional `+`,
/// then digits, with no overflow.
pub fn parse_unsigned(s: &Vec<char>, a: usize, b: usize, radix: u64) -> (r: Option<u64>)
    requires
        a <= b <= s.len(),
        2 <= radix <= 10,
    ensures
        r == (match unsigned_of(s@.subrange(a as int, b as int), radix as int) {
            Some(v) => Some(v as u64),
            None => None::<u64>,
        }),
{
    let ghost t = s@.subrange(a as int, b as int);
    if a < b && s[a] == '+' {
        assert(t.drop_first() =~= s@.subrange(a + 1, b as int));
        read_digits(s, a + 1, b, radix, u64::MAX)
    } else {
        read_digits(s, a, b, radix, u64::MAX)
    }
}

/// Parses `s[a..b]` as a signed decimal literal within the range of `i64`.
pub fn parse_signed(s: &Vec<char>, a: usize, b: usize) -> (r: Option<i64>)
    requires
        a <= b <= s.len(),
    ensures
        r == (match signed_of(s@.subrange(a as int, b as int)) {
            Some(v) => Some(v as i64),
            None => None::<i64>,
        }),
        r is Some ==> signed_of(s@.subrange(a as int, b as int)) == Some(r->0 as int),
{
    let ghost t = s@.subrange(a as int, b as int);
    if a < b && s[a] == '-' {
        assert(t.drop_first() =~= s@.subrange(a + 1, b as int));
        match read_digits(s, a + 1, b, 10, 0x8000_0000_0000_0000) {
            Some(m) => {
                if m == 0x8000_0000_0000_0000 {
                    Some(i64::MIN)
                } else {
                    Some(-(m as i64))
                }
            },
            None => None,
        }
    } else {
        let lo = if a < b && s[a] == '+' {
            assert(t.drop_first() =~= s@.subrange(a + 1, b as int));
            a + 1
        } else {
            a
        };
        match read_digits(s, lo, b, 10, 0x7fff_ffff_ffff_ffff) {
            Some(m) => Some(m as i64),
            None => None,
        }
    }
}

} // verus!
