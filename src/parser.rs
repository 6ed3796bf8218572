//! Control statements of the command shell: `@label: CMD,opt,opt p1,p2 p3 . comment`.
use vstd::prelude::*;

use crate::assembler::{text_at, token, token_after};
use crate::text::{
    chars_of, find, find_char, lemma_trim_end_keeps, skip_space, skip_ws,
    trim_end, trim_space_end,
};

verus! {

/// A parsed control statement.
#[derive(Debug, PartialEq, Eq)]
pub struct Exec8Command {
    pub label: Option<String>,
    pub command: String,
    pub options: Vec<String>,
    pub parameters: Vec<String>,
    pub comment: Option<String>,
}

/// The pieces of `[i, hi)` between commas, empty pieces included.
pub open spec fn comma_pieces(s: Seq<char>, i: int, hi: int) -> Seq<Seq<char>>
    decreases hi - i,
{
    let k = find(s, i, hi, ',');
    if i <= k < hi {
        seq![s.subrange(i, k)] + comma_pieces(s, k + 1, hi)
    } else {
        seq![s.subrange(i, hi)]
    }
}

/// The non-empty pieces of `[i, hi)` between commas.
pub open spec fn filled_pieces(s: Seq<char>, i: int, hi: int) -> Seq<Seq<char>>
    decreases hi - i,
{
    let k = find(s, i, hi, ',');
    let here = if k > i {
        seq![s.subrange(i, k)]
    } else {
        seq![]
    };
    if i <= k < hi {
        here + filled_pieces(s, k + 1, hi)
    } else {
        here
    }
}

/// The parameters in the tokens of `[i, hi)`: every non-empty comma-separated piece.
pub open spec fn params_from(s: Seq<char>, i: int, hi: int) -> Seq<Seq<char>>
    decreases hi - i,
{
    match token(s, i, hi, 0) {
        None => seq![],
        Some((x, y)) => if i < y <= hi {
            filled_pieces(s, x, y) + params_from(s, y, hi)
        } else {
            seq![]
        },
    }
}

/// First position `k` in `[i, hi - 1)` with a space at `k` and a dot at `k + 1`, or `hi`.
pub open spec fn find_space_dot(s: Seq<char>, i: int, hi: int) -> int
    decreases hi - i,
{
    if i + 1 >= hi {
        hi
    } else if s[i] == ' ' && s[i + 1] == '.' {
        i
    } else {
        find_space_dot(s, i + 1, hi)
    }
}

/// Start and end of the statement once surrounding whitespace and the `@` are dropped.
pub open spec fn stmt_bounds(s: Seq<char>) -> (int, int) {
    let a0 = skip_ws(s, 0, s.len() as int);
    let e0 = trim_end(s, a0, s.len() as int);
    (skip_ws(s, a0 + 1, e0), e0)
}

pub open spec fn dot_of(s: Seq<char>) -> int {
    find_space_dot(s, stmt_bounds(s).0, stmt_bounds(s).1)
}

/// End of the statement proper: before ` .` when a comment follows, trimmed.
pub open spec fn raw_end(s: Seq<char>) -> int {
    let (a, e) = stmt_bounds(s);
    trim_end(s, a, dot_of(s))
}

pub open spec fn colon_in(s: Seq<char>) -> int {
    find(s, stmt_bounds(s).0, raw_end(s), ':')
}

/// Where the command and its parameters start: after the label's colon, if any.
pub open spec fn cmd_start(s: Seq<char>) -> int {
    if colon_in(s) < raw_end(s) {
        colon_in(s) + 1
    } else {
        stmt_bounds(s).0
    }
}

/// Whether `line` is a control statement: it starts with `@` once trimmed and
/// names a command.
pub open spec fn is_control(s: Seq<char>) -> bool {
    let a0 = skip_ws(s, 0, s.len() as int);
    &&& a0 < s.len()
    &&& s[a0] == '@'
    &&& token(s, cmd_start(s), raw_end(s), 0) is Some
}

pub open spec fn first_word(s: Seq<char>) -> (int, int) {
    token(s, cmd_start(s), raw_end(s), 0)->0
}

pub open spec fn cmd_comma(s: Seq<char>) -> int {
    find(s, first_word(s).0, first_word(s).1, ',')
}

pub open spec fn label_spec(s: Seq<char>) -> Option<Seq<char>> {
    let (a, _) = stmt_bounds(s);
    let k = colon_in(s);
    if k < raw_end(s) {
        let ls = skip_ws(s, a, k);
        Some(s.subrange(ls, trim_end(s, ls, k)))
    } else {
        None
    }
}

pub open spec fn command_spec(s: Seq<char>) -> Seq<char> {
    s.subrange(first_word(s).0, cmd_comma(s))
}

pub open spec fn options_spec(s: Seq<char>) -> Seq<Seq<char>> {
    if cmd_comma(s) < first_word(s).1 {
        comma_pieces(s, cmd_comma(s) + 1, first_word(s).1)
    } else {
        seq![]
    }
}

pub open spec fn parameters_spec(s: Seq<char>) -> Seq<Seq<char>> {
    params_from(s, first_word(s).1, raw_end(s))
}

pub open spec fn comment_spec(s: Seq<char>) -> Option<Seq<char>> {
    let (a, e) = stmt_bounds(s);
    let d = dot_of(s);
    if d < e {
        let cs = skip_ws(s, d + 1, e);
        Some(s.subrange(cs, trim_end(s, cs, e)))
    } else {
        None
    }
}

pub open spec fn opt_view(o: Option<String>) -> Option<Seq<char>> {
    match o {
        Some(t) => Some(t@),
        None => None,
    }
}

pub open spec fn strings_view(v: Seq<String>) -> Seq<Seq<char>> {
    v.map_values(|t: String| t@)
}

fn find_space_dot_at(s: &Vec<char>, i: usize, hi: usize) -> (r: usize)
    requires
        i <= hi <= s.len(),
    ensures
        r == find_space_dot(s@, i as int, hi as int),
        i <= r <= hi,
        r < hi ==> r + 1 < hi,
{
    let mut k = i;
    while k < hi && k + 1 < hi
        invariant
            i <= k <= hi <= s.len(),
            find_space_dot(s@, k as int, hi as int) == find_space_dot(s@, i as int, hi as int),
        decreases hi - k,
    {
        if s[k] == ' ' && s[k + 1] == '.' {
            return k;
        }
        k = k + 1;
    }
    hi
}

fn comma_split(src: &str, s: &Vec<char>, i: usize, hi: usize) -> (r: Vec<String>)
    requires
        s@ == src@,
        i <= hi <= s.len(),
    ensures
        strings_view(r@) == comma_pieces(s@, i as int, hi as int),
{
    let mut out: Vec<String> = Vec::new();
    let mut k = i;
    loop
        invariant
            s@ == src@,
            i <= k <= hi <= s.len(),
            comma_pieces(s@, i as int, hi as int) == strings_view(out@) + comma_pieces(s@, k as int, hi as int),
        decreases hi - k,
    {
        let c = find_char(s, k, hi, ',');
        let ghost before = strings_view(out@);
        out.push(text_at(src, k, c));
        assert(strings_view(out@) =~= before + seq![s@.subrange(k as int, c as int)]);
        if c < hi {
            assert(before + comma_pieces(s@, k as int, hi as int) =~= strings_view(out@) + comma_pieces(s@, c + 1, hi as int));
            k = c + 1;
        } else {
            assert(strings_view(out@) =~= before + comma_pieces(s@, k as int, hi as int));
            return out;
        }
    }
}

fn filled_split(src: &str, s: &Vec<char>, i: usize, hi: usize, out: &mut Vec<String>)
    requires
        s@ == src@,
        i <= hi <= s.len(),
    ensures
        strings_view(final(out)@) == strings_view(old(out)@) + filled_pieces(s@, i as int, hi as int),
{
    let ghost start = strings_view(out@);
    let mut k = i;
    loop
        invariant
            s@ == src@,
            i <= k <= hi <= s.len(),
            start + filled_pieces(s@, i as int, hi as int) == strings_view(out@) + filled_pieces(s@, k as int, hi as int),
            start == strings_view(old(out)@),
        decreases hi - k,
    {
        let c = find_char(s, k, hi, ',');
        let ghost before = strings_view(out@);
        if c > k {
            out.push(text_at(src, k, c));
            assert(strings_view(out@) =~= before + seq![s@.subrange(k as int, c as int)]);
        } else {
            assert(strings_view(out@) =~= before + Seq::<Seq<char>>::empty());
        }
        if c < hi {
            assert(before + filled_pieces(s@, k as int, hi as int) =~= strings_view(out@) + filled_pieces(s@, c + 1, hi as int));
            k = c + 1;
        } else {
            assert(strings_view(out@) =~= before + filled_pieces(s@, k as int, hi as int));
            assert(strings_view(out@) + filled_pieces(s@, hi as int, hi as int) =~= strings_view(out@) + seq![] + seq![]) by {
                assert(filled_pieces(s@, hi as int, hi as int) =~= Seq::<Seq<char>>::empty());
            }
            return;
        }
    }
}

fn split_params(src: &str, s: &Vec<char>, i: usize, hi: usize) -> (r: Vec<String>)
    requires
        s@ == src@,
        i <= hi <= s.len(),
    ensures
        strings_view(r@) == params_from(s@, i as int, hi as int),
{
    let mut out: Vec<String> = Vec::new();
    let mut k = i;
    loop
        invariant
            s@ == src@,
            i <= k <= hi <= s.len(),
            params_from(s@, i as int, hi as int) == strings_view(out@) + params_from(s@, k as int, hi as int),
        decreases hi - k,
    {
        match token_after(s, k, hi) {
            None => {
                assert(strings_view(out@) + params_from(s@, k as int, hi as int) =~= strings_view(out@));
                return out;
            },
            Some((x, y)) => {
                let ghost before = strings_view(out@);
                filled_split(src, s, x, y, &mut out);
                assert(before + params_from(s@, k as int, hi as int) =~= strings_view(out@) + params_from(s@, y as int, hi as int));
                k = y;
            },
        }
    }
}

/// Where the parts of a statement lie.
struct Spots {
    a: usize,
    e: usize,
    dot: usize,
    raw_end: usize,
    colon: usize,
    cmd_start: usize,
}

fn spots(s: &Vec<char>) -> (r: Spots)
    requires
        skip_ws(s@, 0, s@.len() as int) < s@.len(),
        s@[skip_ws(s@, 0, s@.len() as int)] == '@',
    ensures
        (r.a as int, r.e as int) == stmt_bounds(s@),
        r.dot == dot_of(s@),
        r.raw_end == raw_end(s@),
        r.colon == colon_in(s@),
        r.cmd_start == cmd_start(s@),
        r.a <= r.colon <= r.raw_end <= r.dot <= r.e <= s.len(),
        r.cmd_start <= r.raw_end,
        r.dot < r.e ==> r.dot + 1 < r.e,
{
    let n = s.len();
    let a0 = skip_space(s, 0, n);
    let e0 = trim_space_end(s, a0, n);
    proof {
        lemma_trim_end_keeps(s@, a0 as int, n as int, a0 as int);
    }
    let a = skip_space(s, a0 + 1, e0);
    let dot = find_space_dot_at(s, a, e0);
    let raw_end = trim_space_end(s, a, dot);
    let colon = find_char(s, a, raw_end, ':');
    let cmd_start = if colon < raw_end {
        colon + 1
    } else {
        a
    };
    Spots { a, e: e0, dot, raw_end, colon, cmd_start }
}

/// Whether `line` is a control statement that [`parse_control_line`] accepts.
pub fn is_control_line(line: &str) -> (r: bool)
    ensures
        r == is_control(line@),
{
    let s = chars_of(line);
    let n = s.len();
    let a0 = skip_space(&s, 0, n);
    if a0 >= n || s[a0] != '@' {
        return false;
    }
    let sp = spots(&s);
    token_after(&s, sp.cmd_start, sp.raw_end).is_some()
}

/// Splits a control statement into its label, command, options, parameters
/// and comment.
pub fn parse_control_line(line: &str) -> (r: Exec8Command)
    requires
        is_control(line@),
    ensures
        opt_view(r.label) == label_spec(line@),
        r.command@ == command_spec(line@),
        strings_view(r.options@) == options_spec(line@),
        strings_view(r.parameters@) == parameters_spec(line@),
        opt_view(r.comment) == comment_spec(line@),
{
    let s = chars_of(line);
    let sp = spots(&s);
    proof {
        reveal_with_fuel(token, 1);
    }
    let (w0, w1) = token_after(&s, sp.cmd_start, sp.raw_end).unwrap();
    let comment = if sp.dot < sp.e {
        let cs = skip_space(&s, sp.dot + 1, sp.e);
        let ce = trim_space_end(&s, cs, sp.e);
        Some(text_at(line, cs, ce))
    } else {
        None
    };
    let label = if sp.colon < sp.raw_end {
        let ls = skip_space(&s, sp.a, sp.colon);
        let le = trim_space_end(&s, ls, sp.colon);
        Some(text_at(line, ls, le))
    } else {
        None
    };
    let c = find_char(&s, w0, w1, ',');
    let command = text_at(line, w0, c);
    let options = if c < w1 {
        comma_split(line, &s, c + 1, w1)
    } else {
        let v: Vec<String> = Vec::new();
        assert(strings_view(v@) =~= Seq::<Seq<char>>::empty());
        v
    };
    let parameters = split_params(line, &s, w1, sp.raw_end);
    Exec8Command { label, command, options, parameters, comment }
}

} // verus!
