//! The two-pass assembler: symbolic source text to 36-bit words.
//!
//! Pass one walks the lines, binds each label to the address of the next word
//! and counts the words; pass two walks the same lines again and encodes each
//! instruction, resolving operands against the labels of pass one.
use vstd::prelude::*;

use crate::number::{parse_signed, parse_unsigned, signed_of, unsigned_of};
use crate::text::{
    chars_of, find, find_char, is_ws, lemma_skip_word_bounds,
    lemma_skip_ws_bounds, lemma_trim_end_bounds, same_range, skip_nonspace, skip_space,
    skip_word, skip_ws, trim_end, trim_space_end,
};
use crate::word::{
    encode_link, encode_plain, link_word, mask_word, plain_word, word_of, OP_ADD, OP_HLT,
    OP_ISZ, OP_JMP, OP_JNZ, OP_LDA, OP_LMJ, OP_OUT, OP_STA, OP_SUB, WORD_MASK,
};

verus! {

/// Why a source text could not be assembled.
#[derive(Debug, PartialEq, Eq)]
pub enum AsmError {
    /// The first token of an instruction names no known mnemonic.
    UnknownMnemonic(String),
    /// A data directive without a value.
    MissingValue,
    /// A data directive whose value is no signed 64-bit integer.
    InvalidValue(String),
    /// A link-and-jump with fewer than two operands.
    MissingOperands,
    /// A link-and-jump whose register operand is no unsigned integer.
    InvalidRegister(String),
    /// An operand that is neither a label nor an unsigned integer.
    UnresolvedOperand(String),
}

/// The mathematical form of an [`AsmError`].
pub enum AsmFault {
    UnknownMnemonic(Seq<char>),
    MissingValue,
    InvalidValue(Seq<char>),
    MissingOperands,
    InvalidRegister(Seq<char>),
    UnresolvedOperand(Seq<char>),
}

impl View for AsmError {
    type V = AsmFault;

    open spec fn view(&self) -> AsmFault {
        match self {
            AsmError::UnknownMnemonic(t) => AsmFault::UnknownMnemonic(t@),
            AsmError::MissingValue => AsmFault::MissingValue,
            AsmError::InvalidValue(t) => AsmFault::InvalidValue(t@),
            AsmError::MissingOperands => AsmFault::MissingOperands,
            AsmError::InvalidRegister(t) => AsmFault::InvalidRegister(t@),
            AsmError::UnresolvedOperand(t) => AsmFault::UnresolvedOperand(t@),
        }
    }
}

// ----- the shape of one line -----
/// Start of the line's code: the line with leading whitespace dropped.
pub open spec fn code_start(s: Seq<char>, lo: int, hi: int) -> int {
    skip_ws(s, lo, hi)
}

/// End of the line's code: the trimmed line, cut before its first `;`, trimmed again.
pub open spec fn code_end(s: Seq<char>, lo: int, hi: int) -> int {
    let a = code_start(s, lo, hi);
    trim_end(s, a, find(s, a, trim_end(s, a, hi), ';'))
}

/// A line with no code, or whose code starts with `//`.
pub open spec fn is_blank(s: Seq<char>, lo: int, hi: int) -> bool {
    let a = code_start(s, lo, hi);
    let e = code_end(s, lo, hi);
    a >= e || (e - a >= 2 && s[a] == '/' && s[a + 1] == '/')
}

/// Position of the first `:` in the code, or its end.
pub open spec fn colon_of(s: Seq<char>, lo: int, hi: int) -> int {
    find(s, code_start(s, lo, hi), code_end(s, lo, hi), ':')
}

pub open spec fn has_label(s: Seq<char>, lo: int, hi: int) -> bool {
    !is_blank(s, lo, hi) && colon_of(s, lo, hi) < code_end(s, lo, hi)
}

/// The label of a line: what stands before its first `:`, trimmed.
pub open spec fn label_of(s: Seq<char>, lo: int, hi: int) -> Seq<char> {
    let a = code_start(s, lo, hi);
    s.subrange(a, trim_end(s, a, colon_of(s, lo, hi)))
}

/// Start of the instruction part: after the colon on a labelled line.
pub open spec fn body_start(s: Seq<char>, lo: int, hi: int) -> int {
    if has_label(s, lo, hi) {
        colon_of(s, lo, hi) + 1
    } else {
        code_start(s, lo, hi)
    }
}

/// The `j`-th whitespace-separated token of `[i, hi)`, as a range.
pub open spec fn token(s: Seq<char>, i: int, hi: int, j: nat) -> Option<(int, int)>
    decreases j,
{
    let st = skip_ws(s, i, hi);
    if st >= hi {
        None
    } else if j == 0 {
        Some((st, skip_word(s, st, hi)))
    } else {
        token(s, skip_word(s, st, hi), hi, (j - 1) as nat)
    }
}

/// The `j`-th token of the line's instruction part.
pub open spec fn body_token(s: Seq<char>, lo: int, hi: int, j: nat) -> Option<(int, int)> {
    token(s, body_start(s, lo, hi), code_end(s, lo, hi), j)
}

/// Whether the line carries an instruction, and so takes one word.
pub open spec fn line_emits(s: Seq<char>, lo: int, hi: int) -> bool {
    !is_blank(s, lo, hi) && body_token(s, lo, hi, 0) is Some
}

pub open spec fn text_of(s: Seq<char>, r: (int, int)) -> Seq<char> {
    s.subrange(r.0, r.1)
}

// ----- lines of the source -----
/// End of the line that starts at `p`: its newline, or the end of the text.
pub open spec fn line_end(s: Seq<char>, p: int) -> int {
    find(s, p, s.len() as int, '\n')
}

/// Start of the line after the one at `p`; `s.len() + 1` when there is none.
pub open spec fn next_line(s: Seq<char>, p: int) -> int {
    let e = line_end(s, p);
    if p <= e < s.len() {
        e + 1
    } else {
        s.len() + 1int
    }
}

/// The label bindings of the lines from `p` on, in source order, when the
/// line at `p` would take address `addr`.
pub open spec fn labels_from(s: Seq<char>, p: int, addr: nat) -> Seq<(Seq<char>, nat)>
    decreases s.len() + 1int - p,
{
    if p < 0 || p > s.len() {
        seq![]
    } else {
        let e = line_end(s, p);
        let here = if has_label(s, p, e) {
            seq![(label_of(s, p, e), addr)]
        } else {
            seq![]
        };
        let next = if line_emits(s, p, e) {
            addr + 1
        } else {
            addr
        };
        here + labels_from(s, next_line(s, p), next as nat)
    }
}

/// The label table of a source text: every binding in source order.
pub open spec fn label_table(s: Seq<char>) -> Seq<(Seq<char>, nat)> {
    labels_from(s, 0, 0)
}

/// The address a name denotes: its last binding wins.
pub open spec fn lookup(tab: Seq<(Seq<char>, nat)>, name: Seq<char>) -> Option<nat>
    decreases tab.len(),
{
    if tab.len() == 0 {
        None
    } else if tab.last().0 == name {
        Some(tab.last().1)
    } else {
        lookup(tab.drop_last(), name)
    }
}

/// An operand: a label's address, or else an unsigned decimal literal.
pub open spec fn resolve(tab: Seq<(Seq<char>, nat)>, t: Seq<char>) -> Option<u64> {
    match lookup(tab, t) {
        Some(a) => Some(a as u64),
        None => match unsigned_of(t, 10) {
            Some(v) => Some(v as u64),
            None => None,
        },
    }
}

// ----- mnemonics -----
/// `c` is the upper-case ASCII letter `u` or its lower-case form.
pub open spec fn same_letter(c: char, u: char) -> bool {
    c == u || (c as u32) == (u as u32) + 32
}

/// `t` spells the three-letter mnemonic `xyz`, in either case. Case is folded
/// for ASCII letters only.
pub open spec fn spells(t: Seq<char>, x: char, y: char, z: char) -> bool {
    t.len() == 3 && same_letter(t[0], x) && same_letter(t[1], y) && same_letter(t[2], z)
}

pub open spec fn is_data_directive(t: Seq<char>) -> bool {
    spells(t, 'D', 'E', 'C')
}

/// The opcode that a mnemonic stands for.
pub open spec fn opcode_for(t: Seq<char>) -> Option<u64> {
    if spells(t, 'L', 'D', 'A') {
        Some(OP_LDA)
    } else if spells(t, 'A', 'D', 'D') {
        Some(OP_ADD)
    } else if spells(t, 'S', 'T', 'A') {
        Some(OP_STA)
    } else if spells(t, 'J', 'M', 'P') {
        Some(OP_JMP)
    } else if spells(t, 'H', 'L', 'T') {
        Some(OP_HLT)
    } else if spells(t, 'S', 'U', 'B') {
        Some(OP_SUB)
    } else if spells(t, 'J', 'N', 'Z') {
        Some(OP_JNZ)
    } else if spells(t, 'L', 'M', 'J') {
        Some(OP_LMJ)
    } else if spells(t, 'I', 'S', 'Z') {
        Some(OP_ISZ)
    } else if spells(t, 'O', 'U', 'T') {
        Some(OP_OUT)
    } else {
        None
    }
}

/// End of `[a, b)` once trailing commas are dropped.
pub open spec fn strip_commas(s: Seq<char>, a: int, b: int) -> int
    decreases b - a,
{
    if a < b && s[b - 1] == ',' {
        strip_commas(s, a, b - 1)
    } else {
        b
    }
}

/// The word of a data directive whose value token is `t`.
pub open spec fn data_word(t: Option<Seq<char>>) -> Result<u64, AsmFault> {
    match t {
        None => Err(AsmFault::MissingValue),
        Some(t) => match signed_of(t) {
            None => Err(AsmFault::InvalidValue(t)),
            Some(v) => Ok(word_of(v) as u64),
        },
    }
}

/// The word of a link-and-jump whose operand tokens are `r` and `d`.
pub open spec fn link_result(
    s: Seq<char>,
    tab: Seq<(Seq<char>, nat)>,
    r: Option<(int, int)>,
    d: Option<(int, int)>,
) -> Result<u64, AsmFault> {
    if r is None || d is None {
        Err(AsmFault::MissingOperands)
    } else {
        let reg = s.subrange((r->0).0, strip_commas(s, (r->0).0, (r->0).1));
        match unsigned_of(reg, 10) {
            None => Err(AsmFault::InvalidRegister(reg)),
            Some(n) => match resolve(tab, text_of(s, d->0)) {
                None => Err(AsmFault::UnresolvedOperand(text_of(s, d->0))),
                Some(a) => Ok(link_word(OP_LMJ, n as u64, a)),
            },
        }
    }
}

/// The word of another instruction with opcode `op` and optional operand token `t`.
pub open spec fn plain_result(tab: Seq<(Seq<char>, nat)>, op: u64, t: Option<Seq<char>>) -> Result<
    u64,
    AsmFault,
> {
    match t {
        None => Ok(plain_word(op, 0)),
        Some(t) => match resolve(tab, t) {
            None => Err(AsmFault::UnresolvedOperand(t)),
            Some(v) => Ok(plain_word(op, v)),
        },
    }
}

pub open spec fn opt_text(s: Seq<char>, r: Option<(int, int)>) -> Option<Seq<char>> {
    match r {
        Some(r) => Some(text_of(s, r)),
        None => None,
    }
}

/// What the line `[lo, hi)` assembles to: no word, a word, or an error.
pub open spec fn line_word(s: Seq<char>, lo: int, hi: int, tab: Seq<(Seq<char>, nat)>) -> Option<
    Result<u64, AsmFault>,
> {
    if !line_emits(s, lo, hi) {
        None
    } else {
        let m = text_of(s, body_token(s, lo, hi, 0)->0);
        let t1 = body_token(s, lo, hi, 1);
        if is_data_directive(m) {
            Some(data_word(opt_text(s, t1)))
        } else {
            match opcode_for(m) {
                None => Some(Err(AsmFault::UnknownMnemonic(m))),
                Some(op) => if op == OP_LMJ {
                    Some(link_result(s, tab, t1, body_token(s, lo, hi, 2)))
                } else {
                    Some(plain_result(tab, op, opt_text(s, t1)))
                },
            }
        }
    }
}

/// The words of the lines from `p` on, or the first error among them.
pub open spec fn words_from(s: Seq<char>, p: int, tab: Seq<(Seq<char>, nat)>) -> Result<
    Seq<u64>,
    AsmFault,
>
    decreases s.len() + 1int - p,
{
    if p < 0 || p > s.len() {
        Ok(seq![])
    } else {
        let rest = words_from(s, next_line(s, p), tab);
        match line_word(s, p, line_end(s, p), tab) {
            None => rest,
            Some(Err(e)) => Err(e),
            Some(Ok(w)) => match rest {
                Ok(ws) => Ok(seq![w] + ws),
                Err(e) => Err(e),
            },
        }
    }
}

/// What a whole source text assembles to.
pub open spec fn assembled(s: Seq<char>) -> Result<Seq<u64>, AsmFault> {
    words_from(s, 0, label_table(s))
}

// ----- executable assembler -----
/// Where the parts of one line lie.
struct Layout {
    blank: bool,
    labelled: bool,
    code_start: usize,
    code_end: usize,
    label_end: usize,
    body_start: usize,
}

fn line_layout(s: &Vec<char>, lo: usize, hi: usize) -> (r: Layout)
    requires
        lo <= hi <= s.len(),
    ensures
        r.code_start == code_start(s@, lo as int, hi as int),
        r.code_end == code_end(s@, lo as int, hi as int),
        r.blank == is_blank(s@, lo as int, hi as int),
        r.labelled == has_label(s@, lo as int, hi as int),
        r.labelled ==> s@.subrange(r.code_start as int, r.label_end as int) == label_of(s@, lo as int, hi as int),
        r.labelled ==> r.code_start <= r.label_end <= r.code_end,
        r.body_start == body_start(s@, lo as int, hi as int),
        lo <= r.code_start,
        r.body_start <= r.code_end <= hi,
        r.code_start <= r.body_start,
{
    let a = skip_space(s, lo, hi);
    let b = trim_space_end(s, a, hi);
    let c = find_char(s, a, b, ';');
    let e = trim_space_end(s, a, c);
    let blank = a >= e || (e - a >= 2 && s[a] == '/' && s[a + 1] == '/');
    let k = find_char(s, a, e, ':');
    let labelled = !blank && k < e;
    let label_end = trim_space_end(s, a, k);
    let body_start = if labelled {
        k + 1
    } else {
        a
    };
    Layout { blank, labelled, code_start: a, code_end: e, label_end, body_start }
}

/// The first token of `s[i..hi)`, as a range.
pub(crate) fn token_after(s: &Vec<char>, i: usize, hi: usize) -> (r: Option<(usize, usize)>)
    requires
        i <= hi <= s.len(),
    ensures
        r is None <==> skip_ws(s@, i as int, hi as int) >= hi,
        r is Some ==> (r->0).0 == skip_ws(s@, i as int, hi as int) && (r->0).1 == skip_word(
            s@,
            (r->0).0 as int,
            hi as int,
        ) && i <= (r->0).0 < (r->0).1 <= hi,
{
    let st = skip_space(s, i, hi);
    if st >= hi {
        None
    } else {
        let en = skip_nonspace(s, st, hi);
        proof {
            assert(!is_ws(s@[st as int]));
            lemma_skip_word_bounds(s@, st + 1, hi as int);
        }
        Some((st, en))
    }
}

fn same_letter_at(c: char, u: char) -> (r: bool)
    requires
        (u as u32) < 128,
    ensures
        r == same_letter(c, u),
{
    c == u || (c as u32) == (u as u32) + 32
}

fn spells_at(s: &Vec<char>, a: usize, b: usize, x: char, y: char, z: char) -> (r: bool)
    requires
        a <= b <= s.len(),
        (x as u32) < 128,
        (y as u32) < 128,
        (z as u32) < 128,
    ensures
        r == spells(s@.subrange(a as int, b as int), x, y, z),
{
    b - a == 3 && same_letter_at(s[a], x) && same_letter_at(s[a + 1], y) && same_letter_at(
        s[a + 2],
        z,
    )
}

fn opcode_at(s: &Vec<char>, a: usize, b: usize) -> (r: Option<u64>)
    requires
        a <= b <= s.len(),
    ensures
        r == opcode_for(s@.subrange(a as int, b as int)),
{
    if spells_at(s, a, b, 'L', 'D', 'A') {
        Some(OP_LDA)
    } else if spells_at(s, a, b, 'A', 'D', 'D') {
        Some(OP_ADD)
    } else if spells_at(s, a, b, 'S', 'T', 'A') {
        Some(OP_STA)
    } else if spells_at(s, a, b, 'J', 'M', 'P') {
        Some(OP_JMP)
    } else if spells_at(s, a, b, 'H', 'L', 'T') {
        Some(OP_HLT)
    } else if spells_at(s, a, b, 'S', 'U', 'B') {
        Some(OP_SUB)
    } else if spells_at(s, a, b, 'J', 'N', 'Z') {
        Some(OP_JNZ)
    } else if spells_at(s, a, b, 'L', 'M', 'J') {
        Some(OP_LMJ)
    } else if spells_at(s, a, b, 'I', 'S', 'Z') {
        Some(OP_ISZ)
    } else if spells_at(s, a, b, 'O', 'U', 'T') {
        Some(OP_OUT)
    } else {
        None
    }
}

/// A label bound in pass one: its name is `s[start..end]`.
struct Binding {
    start: usize,
    end: usize,
    addr: usize,
}

spec fn bindings_ok(s: Seq<char>, v: Seq<Binding>) -> bool {
    forall|i: int| 0 <= i < v.len() ==> #[trigger] v[i].start <= v[i].end <= s.len()
}

spec fn table_view(s: Seq<char>, v: Seq<Binding>) -> Seq<(Seq<char>, nat)> {
    v.map_values(|b: Binding| (s.subrange(b.start as int, b.end as int), b.addr as nat))
}

fn find_label(s: &Vec<char>, tab: &Vec<Binding>, a: usize, b: usize) -> (r: Option<usize>)
    requires
        a <= b <= s.len(),
        bindings_ok(s@, tab@),
    ensures
        match lookup(table_view(s@, tab@), s@.subrange(a as int, b as int)) {
            Some(x) => r == Some(x as usize) && x <= usize::MAX,
            None => r is None,
        },
{
    let ghost name = s@.subrange(a as int, b as int);
    let ghost full = table_view(s@, tab@);
    let mut k = tab.len();
    assert(full.subrange(0, k as int) =~= full);
    while k > 0
        invariant
            k <= tab.len(),
            a <= b <= s.len(),
            bindings_ok(s@, tab@),
            full == table_view(s@, tab@),
            name == s@.subrange(a as int, b as int),
            lookup(full, name) == lookup(full.subrange(0, k as int), name),
        decreases k,
    {
        let ent = &tab[k - 1];
        let ghost part = full.subrange(0, k as int);
        assert(part.drop_last() =~= full.subrange(0, k - 1));
        assert(part.last() == full[k - 1]);
        if same_range(s, ent.start, ent.end, a, b) {
            return Some(ent.addr);
        }
        k = k - 1;
    }
    None
}

fn resolve_operand(s: &Vec<char>, tab: &Vec<Binding>, a: usize, b: usize) -> (r: Option<u64>)
    requires
        a <= b <= s.len(),
        bindings_ok(s@, tab@),
    ensures
        r == resolve(table_view(s@, tab@), s@.subrange(a as int, b as int)),
{
    match find_label(s, tab, a, b) {
        Some(x) => Some(x as u64),
        None => parse_unsigned(s, a, b, 10),
    }
}

fn strip_trailing_commas(s: &Vec<char>, a: usize, b: usize) -> (r: usize)
    requires
        a <= b <= s.len(),
    ensures
        r == strip_commas(s@, a as int, b as int),
        a <= r <= b,
{
    let mut k = b;
    while k > a && s[k - 1] == ','
        invariant
            a <= k <= b <= s.len(),
            strip_commas(s@, a as int, k as int) == strip_commas(s@, a as int, b as int),
        decreases k - a,
    {
        k = k - 1;
    }
    k
}

/// The text `src[a..b]` as an owned string.
pub(crate) fn text_at(src: &str, a: usize, b: usize) -> (r: String)
    requires
        a <= b <= src@.len(),
    ensures
        r@ == src@.subrange(a as int, b as int),
{
    src.substring_char(a, b).to_owned()
}

/// `r` is the executable form of the line outcome `m`.
pub open spec fn outcome_matches(r: Option<Result<u64, AsmError>>, m: Option<Result<u64, AsmFault>>) -> bool {
    match m {
        None => r is None,
        Some(Ok(w)) => r == Some(Ok::<u64, AsmError>(w)),
        Some(Err(e)) => match r {
            Some(Err(x)) => x@ == e,
            _ => false,
        },
    }
}

fn encode_line(src: &str, s: &Vec<char>, lo: usize, hi: usize, tab: &Vec<Binding>) -> (r: Option<Result<u64, AsmError>>)
    requires
        s@ == src@,
        lo <= hi <= s.len(),
        bindings_ok(s@, tab@),
    ensures
        outcome_matches(r, line_word(s@, lo as int, hi as int, table_view(s@, tab@))),
{
    let ghost tv = table_view(s@, tab@);
    let lay = line_layout(s, lo, hi);
    if lay.blank {
        return None;
    }
    let e = lay.code_end;
    proof {
        reveal_with_fuel(token, 3);
    }
    let (a0, b0) = match token_after(s, lay.body_start, e) {
        None => {
            return None;
        },
        Some(t) => t,
    };
    let t1 = token_after(s, b0, e);
    let t2 = match t1 {
        Some((_, b1)) => token_after(s, b1, e),
        None => None,
    };
    assert(body_token(s@, lo as int, hi as int, 0) == Some((a0 as int, b0 as int)));
    assert(body_token(s@, lo as int, hi as int, 1) == match t1 {
        Some((x, y)) => Some((x as int, y as int)),
        None => None::<(int, int)>,
    });
    assert(body_token(s@, lo as int, hi as int, 2) == match t2 {
        Some((x, y)) => Some((x as int, y as int)),
        None => None::<(int, int)>,
    });
    if spells_at(s, a0, b0, 'D', 'E', 'C') {
        let r = match t1 {
            None => Err(AsmError::MissingValue),
            Some((a1, b1)) => match parse_signed(s, a1, b1) {
                None => Err(AsmError::InvalidValue(text_at(src, a1, b1))),
                Some(v) => Ok(data_value(v)),
            },
        };
        return Some(r);
    }
    let op = match opcode_at(s, a0, b0) {
        None => {
            return Some(Err(AsmError::UnknownMnemonic(text_at(src, a0, b0))));
        },
        Some(op) => op,
    };
    if op == OP_LMJ {
        let (a1, b1, a2, b2) = match (t1, t2) {
            (Some((a1, b1)), Some((a2, b2))) => (a1, b1, a2, b2),
            _ => {
                return Some(Err(AsmError::MissingOperands));
            },
        };
        let re = strip_trailing_commas(s, a1, b1);
        let reg = match parse_unsigned(s, a1, re, 10) {
            None => {
                return Some(Err(AsmError::InvalidRegister(text_at(src, a1, re))));
            },
            Some(n) => n,
        };
        match resolve_operand(s, tab, a2, b2) {
            None => Some(Err(AsmError::UnresolvedOperand(text_at(src, a2, b2)))),
            Some(addr) => Some(Ok(encode_link(op, reg, addr))),
        }
    } else {
        match t1 {
            None => Some(Ok(encode_plain(op, 0))),
            Some((a1, b1)) => match resolve_operand(s, tab, a1, b1) {
                None => Some(Err(AsmError::UnresolvedOperand(text_at(src, a1, b1)))),
                Some(v) => Some(Ok(encode_plain(op, v))),
            },
        }
    }
}

/// The word that a data directive with value `v` stores: `v` reduced to 36 bits.
pub fn data_value(v: i64) -> (r: u64)
    ensures
        r as int == word_of(v as int),
        r < 0x10_0000_0000,
{
    if v >= 0 {
        mask_word(v as u64)
    } else {
        let m = mask_word((0i64 - (v + 1)) as u64);
        assert(m as int == word_of(-(v as int) - 1));
        assert(word_of(v as int) == WORD_MASK - m);
        WORD_MASK - m
    }
}

proof fn lemma_emits_in_line(s: Seq<char>, lo: int, hi: int)
    requires
        0 <= lo <= hi <= s.len(),
        line_emits(s, lo, hi),
    ensures
        lo < hi,
{
    let a = code_start(s, lo, hi);
    lemma_skip_ws_bounds(s, lo, hi);
    lemma_trim_end_bounds(s, a, hi);
}

/// Pass one: the label bindings of every line, in source order.
fn collect_labels(s: &Vec<char>) -> (r: Vec<Binding>)
    ensures
        bindings_ok(s@, r@),
        table_view(s@, r@) == label_table(s@),
{
    let n = s.len();
    let mut tab: Vec<Binding> = Vec::new();
    let mut p: usize = 0;
    let mut addr: usize = 0;
    let mut more = true;
    while more
        invariant
            n == s.len(),
            p <= n,
            more ==> addr <= p,
            bindings_ok(s@, tab@),
            label_table(s@) == table_view(s@, tab@) + if more {
                labels_from(s@, p as int, addr as nat)
            } else {
                Seq::<(Seq<char>, nat)>::empty()
            },
        decreases if more { n + 1 - p } else { 0 },
    {
        let ghost before = table_view(s@, tab@);
        let e = find_char(s, p, n, '\n');
        let lay = line_layout(s, p, e);
        proof {
            reveal_with_fuel(token, 1);
        }
        if lay.labelled {
            let ghost old_tab = tab@;
            tab.push(Binding { start: lay.code_start, end: lay.label_end, addr });
            assert forall|i: int| 0 <= i < tab@.len() implies #[trigger] tab@[i].start <= tab@[i].end <= s@.len() by {
                if i < old_tab.len() {
                    assert(tab@[i] == old_tab[i]);
                }
            }
            assert(table_view(s@, tab@) =~= before + seq![(label_of(s@, p as int, e as int), addr as nat)]);
        } else {
            assert(table_view(s@, tab@) =~= before);
        }
        let emits = !lay.blank && token_after(s, lay.body_start, lay.code_end).is_some();
        assert(emits == line_emits(s@, p as int, e as int));
        if emits {
            proof {
                lemma_emits_in_line(s@, p as int, e as int);
            }
            addr = addr + 1;
        }
        let ghost rest = labels_from(s@, next_line(s@, p as int), addr as nat);
        if e < n {
            p = e + 1;
        } else {
            more = false;
            assert(rest =~= Seq::<(Seq<char>, nat)>::empty());
        }
        assert(label_table(s@) =~= table_view(s@, tab@) + if more {
            labels_from(s@, p as int, addr as nat)
        } else {
            Seq::<(Seq<char>, nat)>::empty()
        });
    }
    tab
}

/// Assembles a source text into words, one per instruction or data directive,
/// in source order; fails with the first error of pass two.
pub fn assemble(src: &str) -> (r: Result<Vec<u64>, AsmError>)
    ensures
        match r {
            Ok(w) => assembled(src@) == Ok::<Seq<u64>, AsmFault>(w@),
            Err(e) => assembled(src@) == Err::<Seq<u64>, AsmFault>(e@),
        },
{
    let s = chars_of(src);
    let tab = collect_labels(&s);
    let ghost tv = table_view(s@, tab@);
    let n = s.len();
    let mut words: Vec<u64> = Vec::new();
    let mut p: usize = 0;
    let mut more = true;
    while more
        invariant
            n == s.len(),
            s@ == src@,
            p <= n,
            bindings_ok(s@, tab@),
            tv == table_view(s@, tab@),
            tv == label_table(s@),
            more ==> match words_from(s@, p as int, tv) {
                Ok(ws) => assembled(s@) == Ok::<Seq<u64>, AsmFault>(words@ + ws),
                Err(e) => assembled(s@) == Err::<Seq<u64>, AsmFault>(e),
            },
            !more ==> assembled(s@) == Ok::<Seq<u64>, AsmFault>(words@),
        decreases if more { n + 1 - p } else { 0 },
    {
        let e = find_char(&s, p, n, '\n');
        let ghost before = words@;
        let ghost rest = words_from(s@, next_line(s@, p as int), tv);
        match encode_line(src, &s, p, e, &tab) {
            None => {},
            Some(Err(x)) => {
                return Err(x);
            },
            Some(Ok(w)) => {
                words.push(w);
                proof {
                    if rest is Ok {
                        assert(before + (seq![w] + rest->Ok_0) =~= words@ + rest->Ok_0);
                    }
                }
            },
        }
        if e < n {
            p = e + 1;
        } else {
            more = false;
            assert(rest == Ok::<Seq<u64>, AsmFault>(Seq::empty()));
            assert(words@ + Seq::<u64>::empty() =~= words@);
        }
    }
    Ok(words)
}

/// A data directive with value `v` assembles to `v` reduced to 36 bits, taken
/// as a raw word with no opcode field.
pub proof fn lemma_data_directive(s: Seq<char>, lo: int, hi: int, tab: Seq<(Seq<char>, nat)>, v: int)
    requires
        line_emits(s, lo, hi),
        is_data_directive(text_of(s, body_token(s, lo, hi, 0)->0)),
        body_token(s, lo, hi, 1) is Some,
        signed_of(text_of(s, body_token(s, lo, hi, 1)->0)) == Some(v),
    ensures
        line_word(s, lo, hi, tab) == Some(Ok::<u64, AsmFault>(word_of(v) as u64)),
        0 <= word_of(v) < 0x10_0000_0000,
        (word_of(v) as u64) as int == word_of(v),
{
}

// ----- labels and addresses -----
/// Start of line `k` (from 0); `s.len() + 1` past the last line.
pub open spec fn line_start(s: Seq<char>, k: nat) -> int
    decreases k,
{
    if k == 0 {
        0
    } else {
        next_line(s, line_start(s, (k - 1) as nat))
    }
}

/// Whether line `k` takes a word.
pub open spec fn emits_line(s: Seq<char>, k: nat) -> bool {
    let p = line_start(s, k);
    line_emits(s, p, line_end(s, p))
}

/// How many of the first `k` lines take a word.
pub open spec fn emitted(s: Seq<char>, k: nat) -> nat
    decreases k,
{
    if k == 0 {
        0
    } else {
        emitted(s, (k - 1) as nat) + if emits_line(s, (k - 1) as nat) {
            1nat
        } else {
            0nat
        }
    }
}

/// Whether line `k` declares the label `name`.
pub open spec fn declares(s: Seq<char>, k: nat, name: Seq<char>) -> bool {
    let p = line_start(s, k);
    has_label(s, p, line_end(s, p)) && label_of(s, p, line_end(s, p)) == name
}

/// The bindings of the first `k` lines.
pub open spec fn labels_before(s: Seq<char>, k: nat) -> Seq<(Seq<char>, nat)>
    decreases k,
{
    if k == 0 {
        seq![]
    } else {
        let j = (k - 1) as nat;
        let p = line_start(s, j);
        labels_before(s, j) + if has_label(s, p, line_end(s, p)) {
            seq![(label_of(s, p, line_end(s, p)), emitted(s, j))]
        } else {
            seq![]
        }
    }
}

proof fn lemma_line_start_back(s: Seq<char>, k: nat)
    requires
        k > 0,
        line_start(s, k) <= s.len(),
    ensures
        0 <= line_start(s, (k - 1) as nat) < line_start(s, k),
    decreases k,
{
    let p = line_start(s, (k - 1) as nat);
    if k - 1 > 0 {
        if line_start(s, (k - 1) as nat) <= s.len() {
            lemma_line_start_back(s, (k - 1) as nat);
        }
    }
}

proof fn lemma_lookup_concat(a: Seq<(Seq<char>, nat)>, b: Seq<(Seq<char>, nat)>, name: Seq<char>)
    ensures
        lookup(a + b, name) == if lookup(b, name) is Some {
            lookup(b, name)
        } else {
            lookup(a, name)
        },
    decreases b.len(),
{
    if b.len() == 0 {
        assert(a + b =~= a);
    } else {
        assert((a + b).drop_last() =~= a + b.drop_last());
        assert((a + b).last() == b.last());
        lemma_lookup_concat(a, b.drop_last(), name);
    }
}

proof fn lemma_table_split(s: Seq<char>, k: nat)
    requires
        line_start(s, k) <= s.len(),
    ensures
        label_table(s) == labels_before(s, k) + labels_from(s, line_start(s, k), emitted(s, k)),
    decreases k,
{
    if k == 0 {
        assert(label_table(s) =~= labels_before(s, 0) + labels_from(s, 0, 0));
    } else {
        let j = (k - 1) as nat;
        lemma_line_start_back(s, k);
        lemma_table_split(s, j);
        let p = line_start(s, j);
        let here = if has_label(s, p, line_end(s, p)) {
            seq![(label_of(s, p, line_end(s, p)), emitted(s, j))]
        } else {
            seq![]
        };
        assert(labels_from(s, p, emitted(s, j)) == here + labels_from(s, line_start(s, k), emitted(s, k)));
        assert(labels_before(s, k) == labels_before(s, j) + here);
        assert(label_table(s) =~= labels_before(s, k) + labels_from(s, line_start(s, k), emitted(s, k)));
    }
}

proof fn lemma_no_later_binding(s: Seq<char>, j: nat, addr: nat, name: Seq<char>)
    requires
        forall|i: nat| i >= j && line_start(s, i) <= s.len() ==> !#[trigger] declares(s, i, name),
    ensures
        lookup(labels_from(s, line_start(s, j), addr), name) is None,
    decreases s.len() + 1 - line_start(s, j),
{
    let p = line_start(s, j);
    if 0 <= p <= s.len() {
        let e = line_end(s, p);
        let here = if has_label(s, p, e) {
            seq![(label_of(s, p, e), addr)]
        } else {
            seq![]
        };
        let next = if line_emits(s, p, e) {
            addr + 1
        } else {
            addr
        };
        assert(!declares(s, j, name));
        assert(line_start(s, j + 1) == next_line(s, p));
        lemma_no_later_binding(s, j + 1, next as nat, name);
        assert(labels_from(s, p, addr) == here + labels_from(s, next_line(s, p), next as nat));
        lemma_lookup_concat(here, labels_from(s, next_line(s, p), next as nat), name);
        if has_label(s, p, e) {
            assert(here.last().0 != name);
            assert(here.drop_last() =~= Seq::<(Seq<char>, nat)>::empty());
            assert(lookup(here.drop_last(), name) is None);
        } else {
            assert(lookup(here, name) is None);
        }
    } else if p < 0 {
        if j > 0 {
            assert(line_start(s, j) == next_line(s, line_start(s, (j - 1) as nat)));
        }
    }
}

proof fn lemma_words_split(s: Seq<char>, k: nat, ws: Seq<u64>)
    requires
        line_start(s, k) <= s.len(),
        assembled(s) == Ok::<Seq<u64>, AsmFault>(ws),
    ensures
        emitted(s, k) <= ws.len(),
        words_from(s, line_start(s, k), label_table(s)) == Ok::<Seq<u64>, AsmFault>(
            ws.subrange(emitted(s, k) as int, ws.len() as int),
        ),
    decreases k,
{
    let tab = label_table(s);
    if k == 0 {
        assert(ws.subrange(0, ws.len() as int) =~= ws);
    } else {
        let j = (k - 1) as nat;
        lemma_line_start_back(s, k);
        lemma_words_split(s, j, ws);
        let p = line_start(s, j);
        assert(line_start(s, k) == next_line(s, p));
        let rest = words_from(s, line_start(s, k), tab);
        let ej = emitted(s, j) as int;
        let lw = line_word(s, p, line_end(s, p), tab);
        if emits_line(s, j) {
            assert(emitted(s, k) == ej + 1);
            assert(lw is Some);
            match lw {
                Some(Ok(w)) => {
                    match rest {
                        Ok(r) => {
                            assert(words_from(s, p, tab) == Ok::<Seq<u64>, AsmFault>(seq![w] + r));
                            let t = seq![w] + r;
                            assert(t == ws.subrange(ej, ws.len() as int));
                            assert(t.len() == r.len() + 1);
                            assert(ej + 1 <= ws.len());
                            assert forall|i: int| 0 <= i < r.len() implies r[i] == ws[ej + 1 + i] by {
                                assert(r[i] == t[i + 1]);
                            }
                            assert(r =~= ws.subrange(ej + 1, ws.len() as int));
                        },
                        Err(x) => {
                            assert(words_from(s, p, tab) == Err::<Seq<u64>, AsmFault>(x));
                        },
                    }
                },
                Some(Err(x)) => {
                    assert(words_from(s, p, tab) == Err::<Seq<u64>, AsmFault>(x));
                },
                None => {},
            }
        } else {
            assert(emitted(s, k) == ej);
            assert(lw is None);
            assert(words_from(s, p, tab) == rest);
        }
    }
}

/// A label declared on line `k`, and on no later line, resolves to the number
/// of words that the lines before `k` emit. When assembly succeeds, the output
/// from that address on is exactly what the lines from `k` on assemble to, so
/// the word there is the first instruction at or after the label.
pub proof fn lemma_label_address(s: Seq<char>, k: nat, name: Seq<char>)
    requires
        line_start(s, k) <= s.len(),
        declares(s, k, name),
        forall|j: nat| j > k && line_start(s, j) <= s.len() ==> !#[trigger] declares(s, j, name),
    ensures
        lookup(label_table(s), name) == Some(emitted(s, k)),
        resolve(label_table(s), name) == Some(emitted(s, k) as u64),
        assembled(s) is Ok ==> emitted(s, k) <= assembled(s)->Ok_0.len() && words_from(
            s,
            line_start(s, k),
            label_table(s),
        ) == Ok::<Seq<u64>, AsmFault>(
            assembled(s)->Ok_0.subrange(emitted(s, k) as int, assembled(s)->Ok_0.len() as int),
        ),
{
    let p = line_start(s, k);
    let e = line_end(s, p);
    if k > 0 {
        lemma_line_start_back(s, k);
    }
    lemma_table_split(s, k);
    let next = if line_emits(s, p, e) {
        emitted(s, k) + 1
    } else {
        emitted(s, k)
    };
    let rest = labels_from(s, next_line(s, p), next as nat);
    assert(line_start(s, k + 1) == next_line(s, p));
    lemma_no_later_binding(s, k + 1, next as nat, name);
    let here = seq![(name, emitted(s, k))];
    assert(labels_from(s, p, emitted(s, k)) == here + rest);
    lemma_lookup_concat(here, rest, name);
    lemma_lookup_concat(labels_before(s, k), here + rest, name);
    if assembled(s) is Ok {
        lemma_words_split(s, k, assembled(s)->Ok_0);
    }
}

} // verus!
