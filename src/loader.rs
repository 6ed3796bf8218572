//! The object text: one octal word per line.
use vstd::prelude::*;

use crate::assembler::{line_end, text_at};
use crate::number::{parse_unsigned, unsigned_of};
use crate::text::{chars_of, find_char, skip_space, skip_ws, trim_end, trim_space_end};

verus! {

/// A line of object text that holds no octal word.
#[derive(Debug, PartialEq, Eq)]
pub struct LoadError {
    /// The line, trimmed.
    pub text: String,
}

/// The trimmed line `[p, e)`.
pub open spec fn trimmed_line(s: Seq<char>, p: int, e: int) -> Seq<char> {
    let a = skip_ws(s, p, e);
    s.subrange(a, trim_end(s, a, e))
}

/// The words of the object text from the line at `p` on, or the first line
/// that holds none. A newline at the very end starts no further line.
pub open spec fn object_from(s: Seq<char>, p: int) -> Result<Seq<u64>, Seq<char>>
    decreases s.len() - p,
{
    if p < 0 || p >= s.len() {
        Ok(seq![])
    } else {
        let e = line_end(s, p);
        let t = trimmed_line(s, p, e);
        let rest = if p <= e < s.len() {
            object_from(s, e + 1)
        } else {
            Ok(seq![])
        };
        match unsigned_of(t, 8) {
            None => Err(t),
            Some(w) => match rest {
                Ok(ws) => Ok(seq![w as u64] + ws),
                Err(x) => Err(x),
            },
        }
    }
}

/// Reads object text into words, one octal number per line.
pub fn parse_object(text: &str) -> (r: Result<Vec<u64>, LoadError>)
    ensures
        match r {
            Ok(w) => object_from(text@, 0) == Ok::<Seq<u64>, Seq<char>>(w@),
            Err(e) => object_from(text@, 0) == Err::<Seq<u64>, Seq<char>>(e.text@),
        },
{
    let s = chars_of(text);
    let n = s.len();
    let mut words: Vec<u64> = Vec::new();
    let mut p: usize = 0;
    while p < n
        invariant
            n == s.len(),
            s@ == text@,
            p <= n,
            match object_from(s@, p as int) {
                Ok(ws) => object_from(s@, 0) == Ok::<Seq<u64>, Seq<char>>(words@ + ws),
                Err(x) => object_from(s@, 0) == Err::<Seq<u64>, Seq<char>>(x),
            },
        decreases n - p,
    {
        let e = find_char(&s, p, n, '\n');
        let a = skip_space(&s, p, e);
        let b = trim_space_end(&s, a, e);
        let ghost rest = if e < n {
            object_from(s@, e + 1)
        } else {
            Ok(seq![])
        };
        match parse_unsigned(&s, a, b, 8) {
            None => {
                return Err(LoadError { text: text_at(text, a, b) });
            },
            Some(w) => {
                let ghost before = words@;
                words.push(w);
                proof {
                    if rest is Ok {
                        assert(before + (seq![w] + rest->Ok_0) =~= words@ + rest->Ok_0);
                    }
                }
            },
        }
        if e < n {
            p = e + 1;
        } else {
            assert(words@ + Seq::<u64>::empty() =~= words@);
            p = n;
        }
    }
    Ok(words)
}

} // verus!
