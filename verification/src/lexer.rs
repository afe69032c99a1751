//! The lexer: source text to tokens with their locations.
use vstd::prelude::*;
use vstd::string::StringSliceAdditionalSpecFns;
use crate::text::{ascii_chars, ascii_to_string};

verus! {

/// A place in the source: line and column (both from zero) and byte index.
#[derive(Debug, Clone, Copy, PartialEq, Eq, Structural)]
pub struct Loc {
    pub line: u32,
    pub col: u32,
    pub byte_idx: usize,
}

/// A token; `Empty`, `NegSign` and `FunCall` are made by the compiler, never by the lexer.
#[derive(Debug, Clone, PartialEq, Eq)]
pub enum Token {
    Empty,
    Pow,
    Plus,
    Minus,
    Star,
    Slash,
    Mod,
    Eq,
    LParen,
    RParen,
    Comma,
    Newline,
    Var(String),
    Number(String),
    NegSign,
    FunCall(String),
}

/// The state the lexer keeps between tokens: none.
#[derive(Debug, Clone, Copy, PartialEq, Eq, Structural)]
pub struct LexerState {}

/// The kind of a token the lexer recognizes.
#[derive(Debug, Clone, Copy, PartialEq, Eq, Structural)]
pub enum TokKind {
    Pow,
    Plus,
    Minus,
    Star,
    Slash,
    Mod,
    Eq,
    LParen,
    RParen,
    Comma,
    Newline,
    Var,
    Number,
}

/// A byte no rule accepts, at `loc`.
#[derive(Debug, Clone, Copy, PartialEq, Eq, Structural)]
pub struct LexError {
    pub loc: Loc,
}

pub open spec fn is_digit(c: u8) -> bool {
    48 <= c <= 57
}

pub open spec fn is_ident_start(c: u8) -> bool {
    (65 <= c <= 90) || (97 <= c <= 122) || c == 95
}

pub open spec fn is_ident_char(c: u8) -> bool {
    is_ident_start(c) || is_digit(c)
}

pub open spec fn is_blank(c: u8) -> bool {
    c == 32 || c == 9
}

/// Number of digits from `p` on.
pub open spec fn digit_run(b: Seq<u8>, p: int) -> nat
    decreases b.len() - p,
{
    if 0 <= p < b.len() && is_digit(b[p]) {
        1 + digit_run(b, p + 1)
    } else {
        0
    }
}

/// Number of identifier characters from `p` on.
pub open spec fn ident_run(b: Seq<u8>, p: int) -> nat
    decreases b.len() - p,
{
    if 0 <= p < b.len() && is_ident_char(b[p]) {
        1 + ident_run(b, p + 1)
    } else {
        0
    }
}

/// Number of blanks from `p` on.
pub open spec fn blank_run(b: Seq<u8>, p: int) -> nat
    decreases b.len() - p,
{
    if 0 <= p < b.len() && is_blank(b[p]) {
        1 + blank_run(b, p + 1)
    } else {
        0
    }
}

/// The byte at `p`, or zero past the end.
pub open spec fn at(b: Seq<u8>, p: int) -> u8 {
    if 0 <= p < b.len() { b[p] } else { 0 }
}

/// Length of the longest number at `p` (which is a digit): digits, then a point and digits when
/// a digit follows the point, then `e` or `E`, an optional sign and digits when digits follow.
pub open spec fn number_len(b: Seq<u8>, p: int) -> nat {
    let q = p + digit_run(b, p);
    let f: nat = if at(b, q) == 46 && digit_run(b, q + 1) > 0 { 1 + digit_run(b, q + 1) } else { 0 };
    let r = q + f;
    let s: int = if at(b, r + 1) == 43 || at(b, r + 1) == 45 { 1 } else { 0 };
    let e: nat = if (at(b, r) == 101 || at(b, r) == 69) && digit_run(b, r + 1 + s) > 0 {
        (1 + s + digit_run(b, r + 1 + s)) as nat
    } else {
        0
    };
    digit_run(b, p) + f + e
}

/// The token at `p` (not a blank, inside the text): its length and kind, or none when no rule
/// accepts the byte there.
pub open spec fn scan(b: Seq<u8>, p: int) -> Option<(nat, TokKind)> {
    let c = b[p];
    if c == 43 { Some((1nat, TokKind::Plus)) }
    else if c == 45 { Some((1nat, TokKind::Minus)) }
    else if c == 42 { Some((1nat, TokKind::Star)) }
    else if c == 47 { Some((1nat, TokKind::Slash)) }
    else if c == 94 { Some((1nat, TokKind::Pow)) }
    else if c == 61 { Some((1nat, TokKind::Eq)) }
    else if c == 40 { Some((1nat, TokKind::LParen)) }
    else if c == 41 { Some((1nat, TokKind::RParen)) }
    else if c == 44 { Some((1nat, TokKind::Comma)) }
    else if c == 10 { Some((1nat, TokKind::Newline)) }
    else if c == 13 && at(b, p + 1) == 10 { Some((2nat, TokKind::Newline)) }
    else if is_ident_start(c) {
        let n = ident_run(b, p);
        if n == 3 && c == 109 && b[p + 1] == 111 && b[p + 2] == 100 {
            Some((3nat, TokKind::Mod))
        } else {
            Some((n, TokKind::Var))
        }
    } else if is_digit(c) {
        Some((number_len(b, p), TokKind::Number))
    } else {
        None
    }
}

/// The tokens from `p` on as (start, end, kind), up to the first byte no rule accepts, and
/// that byte's index when there is one.
pub open spec fn lex_from(b: Seq<u8>, p: nat) -> (Seq<(nat, nat, TokKind)>, Option<nat>)
    decreases b.len() - p, 0nat,
{
    let q = p + blank_run(b, p as int);
    if q >= b.len() {
        (Seq::empty(), None)
    } else {
        match scan(b, q as int) {
            None => (Seq::empty(), Some(q)),
            Some((n, k)) => if n == 0 || q + n > b.len() {
                (Seq::empty(), Some(q))
            } else {
                let rest = lex_from(b, q + n);
                (seq![(q, q + n, k)] + rest.0, rest.1)
            },
        }
    }
}

/// Each token takes at least one byte.
pub proof fn lemma_lex_count(b: Seq<u8>, p: nat)
    requires
        p <= b.len(),
    ensures
        lex_from(b, p).0.len() <= b.len() - p,
    decreases b.len() - p,
{
    let q = p + blank_run(b, p as int);
    if q < b.len() {
        match scan(b, q as int) {
            Some((n, k)) => if n != 0 && q + n <= b.len() {
                lemma_lex_count(b, q + n);
            },
            None => {},
        }
    }
}

/// Line and column of byte `i`: a newline byte starts a new line at column zero.
pub open spec fn line_col(b: Seq<u8>, i: nat) -> (nat, nat)
    decreases i,
{
    if i == 0 {
        (0, 0)
    } else {
        let lc = line_col(b, (i - 1) as nat);
        if b[i - 1] == 10 { (lc.0 + 1, 0) } else { (lc.0, lc.1 + 1) }
    }
}

/// The location of byte `i`.
pub open spec fn loc_at(b: Seq<u8>, i: nat) -> Loc {
    Loc { line: line_col(b, i).0 as u32, col: line_col(b, i).1 as u32, byte_idx: i as usize }
}

/// Whether a token is of a kind, with the text of the bytes `s..e` for the kinds that carry
/// text.
pub open spec fn token_is(t: Token, k: TokKind, text: Seq<u8>) -> bool {
    match k {
        TokKind::Pow => t == Token::Pow,
        TokKind::Plus => t == Token::Plus,
        TokKind::Minus => t == Token::Minus,
        TokKind::Star => t == Token::Star,
        TokKind::Slash => t == Token::Slash,
        TokKind::Mod => t == Token::Mod,
        TokKind::Eq => t == Token::Eq,
        TokKind::LParen => t == Token::LParen,
        TokKind::RParen => t == Token::RParen,
        TokKind::Comma => t == Token::Comma,
        TokKind::Newline => t == Token::Newline,
        TokKind::Var => t matches Token::Var(s) && s@ == ascii_chars(text),
        TokKind::Number => t matches Token::Number(s) && s@ == ascii_chars(text),
    }
}

proof fn lemma_line_col_bound(b: Seq<u8>, i: nat)
    ensures
        line_col(b, i).0 <= i,
        line_col(b, i).1 <= i,
    decreases i,
{
    if i > 0 {
        lemma_line_col_bound(b, (i - 1) as nat);
    }
}

fn digit_run_at(b: &[u8], p: usize) -> (r: usize)
    requires
        p <= b@.len(),
    ensures
        r == digit_run(b@, p as int),
        p + r <= b@.len(),
{
    let mut i = p;
    while i < b.len() && b[i] >= 48 && b[i] <= 57
        invariant
            p <= i <= b@.len(),
            digit_run(b@, p as int) == (i - p) + digit_run(b@, i as int),
        decreases b@.len() - i,
    {
        i = i + 1;
    }
    i - p
}

fn ident_run_at(b: &[u8], p: usize) -> (r: usize)
    requires
        p <= b@.len(),
    ensures
        r == ident_run(b@, p as int),
        p + r <= b@.len(),
{
    let mut i = p;
    while i < b.len() && ((b[i] >= 65 && b[i] <= 90) || (b[i] >= 97 && b[i] <= 122) || b[i] == 95
        || (b[i] >= 48 && b[i] <= 57))
        invariant
            p <= i <= b@.len(),
            ident_run(b@, p as int) == (i - p) + ident_run(b@, i as int),
        decreases b@.len() - i,
    {
        i = i + 1;
    }
    i - p
}

fn blank_run_at(b: &[u8], p: usize) -> (r: usize)
    requires
        p <= b@.len(),
    ensures
        r == blank_run(b@, p as int),
        p + r <= b@.len(),
{
    let mut i = p;
    while i < b.len() && (b[i] == 32 || b[i] == 9)
        invariant
            p <= i <= b@.len(),
            blank_run(b@, p as int) == (i - p) + blank_run(b@, i as int),
        decreases b@.len() - i,
    {
        i = i + 1;
    }
    i - p
}

fn at_exec(b: &[u8], p: usize) -> (r: u8)
    ensures
        r == at(b@, p as int),
{
    if p < b.len() { b[p] } else { 0 }
}

fn number_len_at(b: &[u8], p: usize) -> (r: usize)
    requires
        p < b@.len(),
    ensures
        r == number_len(b@, p as int),
        p + r <= b@.len(),
{
    let len = b.len();
    let d = digit_run_at(b, p);
    let q = p + d;
    let f = if at_exec(b, q) == 46 && q < b.len() && digit_run_at(b, q + 1) > 0 { 1 + digit_run_at(b, q + 1) } else { 0 };
    let r = q + f;
    let s: usize = if r < b.len() && (at_exec(b, r + 1) == 43 || at_exec(b, r + 1) == 45) { 1 } else { 0 };
    let e = if (at_exec(b, r) == 101 || at_exec(b, r) == 69) && r < b.len() && r + 1 + s <= b.len() && digit_run_at(b, r + 1 + s) > 0 {
        1 + s + digit_run_at(b, r + 1 + s)
    } else {
        0
    };
    proof {
        if at(b@, q as int) == 46 && q >= b@.len() {
            assert(false);
        }
        if at(b@, r + 1) == 43 || at(b@, r + 1) == 45 {
            assert(r + 1 < b@.len());
        }
        if (at(b@, r as int) == 101 || at(b@, r as int) == 69) && r + 1 + s > b@.len() {
            assert(digit_run(b@, r + 1 + s) == 0);
        }
    }
    d + f + e
}

fn scan_at(b: &[u8], p: usize) -> (r: Option<(usize, TokKind)>)
    requires
        p < b@.len(),
    ensures
        match scan(b@, p as int) {
            Some((n, k)) => r == Some((n as usize, k)) && p + n <= b@.len(),
            None => r is None,
        },
{
    let c = b[p];
    if c == 43 { Some((1, TokKind::Plus)) }
    else if c == 45 { Some((1, TokKind::Minus)) }
    else if c == 42 { Some((1, TokKind::Star)) }
    else if c == 47 { Some((1, TokKind::Slash)) }
    else if c == 94 { Some((1, TokKind::Pow)) }
    else if c == 61 { Some((1, TokKind::Eq)) }
    else if c == 40 { Some((1, TokKind::LParen)) }
    else if c == 41 { Some((1, TokKind::RParen)) }
    else if c == 44 { Some((1, TokKind::Comma)) }
    else if c == 10 { Some((1, TokKind::Newline)) }
    else if c == 13 && at_exec(b, p + 1) == 10 { Some((2, TokKind::Newline)) }
    else if (c >= 65 && c <= 90) || (c >= 97 && c <= 122) || c == 95 {
        let n = ident_run_at(b, p);
        if n == 3 && c == 109 && b[p + 1] == 111 && b[p + 2] == 100 {
            Some((3, TokKind::Mod))
        } else {
            Some((n, TokKind::Var))
        }
    } else if c >= 48 && c <= 57 {
        Some((number_len_at(b, p), TokKind::Number))
    } else {
        None
    }
}

/// The token of a kind with the text of `b[s..e]`.
fn make_token(b: &[u8], s: usize, e: usize, k: TokKind) -> (t: Token)
    requires
        s <= e <= b@.len(),
        k == TokKind::Var ==> forall|i: int| s <= i < e ==> is_ident_char(#[trigger] b@[i]),
        k == TokKind::Number ==> forall|i: int| s <= i < e ==> #[trigger] b@[i] < 128,
    ensures
        token_is(t, k, b@.subrange(s as int, e as int)),
{
    match k {
        TokKind::Pow => Token::Pow,
        TokKind::Plus => Token::Plus,
        TokKind::Minus => Token::Minus,
        TokKind::Star => Token::Star,
        TokKind::Slash => Token::Slash,
        TokKind::Mod => Token::Mod,
        TokKind::Eq => Token::Eq,
        TokKind::LParen => Token::LParen,
        TokKind::RParen => Token::RParen,
        TokKind::Comma => Token::Comma,
        TokKind::Newline => Token::Newline,
        TokKind::Var => {
            let v = vstd::slice::slice_to_vec(vstd::slice::slice_subrange(b, s, e));
            Token::Var(ascii_to_string(v))
        },
        TokKind::Number => {
            let v = vstd::slice::slice_to_vec(vstd::slice::slice_subrange(b, s, e));
            Token::Number(ascii_to_string(v))
        },
    }
}

proof fn lemma_digit_run_bytes(b: Seq<u8>, p: int, i: int)
    requires
        p <= i < p + digit_run(b, p),
    ensures
        0 <= i < b.len(),
        is_digit(b[i]),
    decreases i - p,
{
    if i > p {
        lemma_digit_run_bytes(b, p + 1, i);
    }
}

proof fn lemma_ident_run_bytes(b: Seq<u8>, p: int, i: int)
    requires
        p <= i < p + ident_run(b, p),
    ensures
        0 <= i < b.len(),
        is_ident_char(b[i]),
    decreases i - p,
{
    if i > p {
        lemma_ident_run_bytes(b, p + 1, i);
    }
}

/// The bytes of a number are ASCII.
proof fn lemma_number_ascii(b: Seq<u8>, p: int, i: int)
    requires
        0 <= p < b.len(),
        is_digit(b[p]),
        p <= i < p + number_len(b, p),
        p + number_len(b, p) <= b.len(),
    ensures
        b[i] < 128,
{
    let q = p + digit_run(b, p);
    let f: nat = if at(b, q) == 46 && digit_run(b, q + 1) > 0 { 1 + digit_run(b, q + 1) } else { 0 };
    let r = q + f;
    let sg: int = if at(b, r + 1) == 43 || at(b, r + 1) == 45 { 1 } else { 0 };
    if i < q {
        lemma_digit_run_bytes(b, p, i);
    } else if i < r {
        if i > q {
            lemma_digit_run_bytes(b, q + 1, i);
        }
    } else if i > r + sg {
        lemma_digit_run_bytes(b, r + 1 + sg, i);
    }
}

/// Line and column after the bytes `from..to`, from those at `from`.
fn advance(b: &[u8], from: usize, to: usize, line: u32, col: u32) -> (r: (u32, u32))
    requires
        from <= to <= b@.len(),
        b@.len() <= u32::MAX,
        (line as nat, col as nat) == line_col(b@, from as nat),
    ensures
        (r.0 as nat, r.1 as nat) == line_col(b@, to as nat),
{
    let mut j = from;
    let mut l = line;
    let mut c = col;
    while j < to
        invariant
            from <= j <= to <= b@.len(),
            b@.len() <= u32::MAX,
            (l as nat, c as nat) == line_col(b@, j as nat),
        decreases to - j,
    {
        proof { lemma_line_col_bound(b@, j as nat); }
        if b[j] == 10 {
            l = l + 1;
            c = 0;
        } else {
            c = c + 1;
        }
        j = j + 1;
    }
    (l, c)
}

/// Whether the lexer's tokens are what `lex_from` gives: the same tokens with their start and
/// end locations, and the error at the first byte no rule accepts.
pub open spec fn lexed(b: Seq<u8>, toks: Seq<(Loc, Token, Loc)>, err: Option<LexError>) -> bool {
    let raw = lex_from(b, 0).0;
    &&& toks.len() == raw.len()
    &&& forall|i: int| 0 <= i < raw.len() ==> {
        &&& (#[trigger] toks[i]).0 == loc_at(b, raw[i].0)
        &&& toks[i].2 == loc_at(b, raw[i].1)
        &&& token_is(toks[i].1, raw[i].2, b.subrange(raw[i].0 as int, raw[i].1 as int))
    }
    &&& match lex_from(b, 0).1 {
        Some(e) => err == Some(LexError { loc: loc_at(b, e) }),
        None => err is None,
    }
}

/// The tokens of a source text with their start and end locations, up to the first byte no
/// rule accepts, and the error there when there is one (see `lex_from`).
pub fn tokenize(source: &str) -> (r: (Vec<(Loc, Token, Loc)>, Option<LexError>))
    requires
        source.spec_bytes().len() <= u32::MAX,
    ensures
        lexed(source.spec_bytes(), r.0@, r.1),
{
    let b = source.as_bytes();
    let n = b.len();
    let mut out: Vec<(Loc, Token, Loc)> = Vec::new();
    let ghost mut raw: Seq<(nat, nat, TokKind)> = Seq::empty();
    let mut pos: usize = 0;
    let mut line: u32 = 0;
    let mut col: u32 = 0;
    proof {
        assert(raw + lex_from(b@, 0).0 =~= lex_from(b@, 0).0);
    }
    while pos <= n
        invariant
            pos <= n,
            n == b@.len(),
            b@ == source.spec_bytes(),
            n <= u32::MAX,
            (line as nat, col as nat) == line_col(b@, pos as nat),
            lex_from(b@, 0).0 == raw + lex_from(b@, pos as nat).0,
            lex_from(b@, 0).1 == lex_from(b@, pos as nat).1,
            out@.len() == raw.len(),
            forall|i: int| 0 <= i < raw.len() ==> {
                &&& (#[trigger] out@[i]).0 == loc_at(b@, raw[i].0)
                &&& out@[i].2 == loc_at(b@, raw[i].1)
                &&& token_is(out@[i].1, raw[i].2, b@.subrange(raw[i].0 as int, raw[i].1 as int))
            },
        decreases n + 1 - pos,
    {
        let k = blank_run_at(b, pos);
        let q = pos + k;
        let (l1, c1) = advance(b, pos, q, line, col);
        if q >= n {
            proof {
                assert(raw + Seq::<(nat, nat, TokKind)>::empty() =~= raw);
            }
            return (out, None);
        }
        proof { lemma_line_col_bound(b@, q as nat); }
        let start = Loc { line: l1, col: c1, byte_idx: q };
        proof {
            assert(start == loc_at(b@, q as nat));
            assert(raw + Seq::<(nat, nat, TokKind)>::empty() =~= raw);
        }
        match scan_at(b, q) {
            None => {
                return (out, Some(LexError { loc: start }));
            },
            Some((len, kind)) => {
                if len == 0 {
                    return (out, Some(LexError { loc: start }));
                }
                let e = q + len;
                let (l2, c2) = advance(b, q, e, l1, c1);
                proof {
                    lemma_line_col_bound(b@, e as nat);
                    if kind == TokKind::Var {
                        assert forall|i: int| q <= i < e implies is_ident_char(#[trigger] b@[i]) by {
                            lemma_ident_run_bytes(b@, q as int, i);
                        }
                    }
                    if kind == TokKind::Number {
                        assert forall|i: int| q <= i < e implies #[trigger] b@[i] < 128 by {
                            lemma_number_ascii(b@, q as int, i);
                        }
                    }
                }
                let tok = make_token(b, q, e, kind);
                let ghost t = (q as nat, e as nat, kind);
                proof {
                    let rest = lex_from(b@, e as nat);
                    assert(raw + (seq![t] + rest.0) =~= raw.push(t) + rest.0);
                    raw = raw.push(t);
                }
                out.push((start, tok, Loc { line: l2, col: c2, byte_idx: e }));
                pos = e;
                line = l2;
                col = c2;
            },
        }
    }
    proof { assert(false); }
    (out, None)
}

} // verus!
