//! The compiler: tokens of each line to an instruction tree, by operator precedence.
use vstd::prelude::*;
use vstd::string::StringSliceAdditionalSpecFns;
use vstd::string::StringExecFns;
use crate::error::CompilerError;
use crate::lexer::{Loc, Token, tokenize, lex_from, lexed, lemma_lex_count};

verus! {

/// An expression: a literal, a variable, a function call or a nested instruction.
#[derive(Debug, PartialEq, Eq)]
pub enum Expr {
    Empty,
    Number(String),
    Var(String),
    FunCall(String, Vec<Expr>),
    Inst(Box<Inst>),
}

/// An instruction: an expression, a negation, an assignment or a binary operation.
#[derive(Debug, PartialEq, Eq)]
pub enum Inst {
    Empty,
    Expr(Expr),
    Neg(Expr),
    Assign(Expr, Expr),
    Add(Expr, Expr),
    Sub(Expr, Expr),
    Div(Expr, Expr),
    Mul(Expr, Expr),
    Pow(Expr, Expr),
    Mod(Expr, Expr),
    BultinFnCall(String),
}

/// Depths the parser tracks: open parentheses, open calls and the instruction spine.
#[derive(Debug, Clone, Copy, PartialEq, Eq, Structural)]
pub struct CompilerState {
    in_paren: usize,
    in_expr: usize,
    in_funcall: usize,
    expr_depth: usize,
}

/// Whether a token is a binary operator.
pub open spec fn is_binary_token(t: Token) -> bool {
    t is Plus || t is Minus || t is Star || t is Slash || t is Eq || t is Pow || t is Mod
}

/// The binary instruction of an operator token.
pub open spec fn binary_of(t: Token, lhs: Expr, rhs: Expr) -> Inst {
    match t {
        Token::Plus => Inst::Add(lhs, rhs),
        Token::Minus => Inst::Sub(lhs, rhs),
        Token::Star => Inst::Mul(lhs, rhs),
        Token::Slash => Inst::Div(lhs, rhs),
        Token::Eq => Inst::Assign(lhs, rhs),
        Token::Pow => Inst::Pow(lhs, rhs),
        _ => Inst::Mod(lhs, rhs),
    }
}

/// Whether an instruction is a binary operation.
pub open spec fn is_binary(i: Inst) -> bool {
    i is Assign || i is Add || i is Sub || i is Div || i is Mul || i is Pow || i is Mod
}

/// Whether an instruction is an operator (binary or a negation).
pub open spec fn is_operator(i: Inst) -> bool {
    is_binary(i) || i is Neg
}

/// How tightly an operator binds: `=` 0, `mod` 1, `+ -` 2, `* /` 3, `^` 4, negation 5.
pub open spec fn priority_of(i: Inst) -> u8 {
    match i {
        Inst::Assign(_, _) => 0,
        Inst::Mod(_, _) => 1,
        Inst::Add(_, _) => 2,
        Inst::Sub(_, _) => 2,
        Inst::Mul(_, _) => 3,
        Inst::Div(_, _) => 3,
        Inst::Pow(_, _) => 4,
        _ => 5,
    }
}

/// The operands of a binary instruction.
pub open spec fn operands(i: Inst) -> (Expr, Expr) {
    match i {
        Inst::Assign(l, r) => (l, r),
        Inst::Add(l, r) => (l, r),
        Inst::Sub(l, r) => (l, r),
        Inst::Div(l, r) => (l, r),
        Inst::Mul(l, r) => (l, r),
        Inst::Pow(l, r) => (l, r),
        Inst::Mod(l, r) => (l, r),
        _ => (Expr::Empty, Expr::Empty),
    }
}

/// A binary instruction of the same kind with other operands.
pub open spec fn with_operands(i: Inst, l: Expr, r: Expr) -> Inst {
    match i {
        Inst::Assign(_, _) => Inst::Assign(l, r),
        Inst::Add(_, _) => Inst::Add(l, r),
        Inst::Sub(_, _) => Inst::Sub(l, r),
        Inst::Div(_, _) => Inst::Div(l, r),
        Inst::Mul(_, _) => Inst::Mul(l, r),
        Inst::Pow(_, _) => Inst::Pow(l, r),
        Inst::Mod(_, _) => Inst::Mod(l, r),
        _ => i,
    }
}

impl Inst {
    /// The binary instruction of an operator token.
    pub fn from_binary_token(token: &Token, lhs: Expr, rhs: Expr) -> (r: Self)
        requires
            is_binary_token(*token),
        ensures
            r == binary_of(*token, lhs, rhs),
    {
        match token {
            Token::Plus => Inst::Add(lhs, rhs),
            Token::Minus => Inst::Sub(lhs, rhs),
            Token::Star => Inst::Mul(lhs, rhs),
            Token::Slash => Inst::Div(lhs, rhs),
            Token::Eq => Inst::Assign(lhs, rhs),
            Token::Pow => Inst::Pow(lhs, rhs),
            _ => Inst::Mod(lhs, rhs),
        }
    }

    /// Whether the instruction is a bare expression.
    pub fn is_expr(&self) -> (r: bool)
        ensures
            r == (*self is Expr),
    {
        match self {
            Inst::Expr(_) => true,
            _ => false,
        }
    }

    /// The expression of a bare-expression instruction.
    pub fn unwrap_expr(self) -> (r: Expr)
        requires
            self is Expr,
        ensures
            Inst::Expr(r) == self,
    {
        match self {
            Inst::Expr(e) => e,
            _ => Expr::Empty,
        }
    }

    /// How tightly the operator binds (see `priority_of`).
    pub fn priority(&self) -> (r: u8)
        requires
            is_operator(*self),
        ensures
            r == priority_of(*self),
    {
        match self {
            Inst::Assign(_, _) => 0,
            Inst::Mod(_, _) => 1,
            Inst::Add(_, _) => 2,
            Inst::Sub(_, _) => 2,
            Inst::Mul(_, _) => 3,
            Inst::Div(_, _) => 3,
            Inst::Pow(_, _) => 4,
            _ => 5,
        }
    }

    /// The operands of a binary instruction, to read or replace.
    pub fn get_binary_exprs(&mut self) -> (r: (&mut Expr, &mut Expr))
        requires
            is_binary(*old(self)),
        ensures
            *r.0 == operands(*old(self)).0,
            *r.1 == operands(*old(self)).1,
            *final(self) == with_operands(*old(self), *final(r.0), *final(r.1)),
    {
        match self {
            Inst::Assign(l, r) => (l, r),
            Inst::Add(l, r) => (l, r),
            Inst::Sub(l, r) => (l, r),
            Inst::Div(l, r) => (l, r),
            Inst::Mul(l, r) => (l, r),
            Inst::Pow(l, r) => (l, r),
            Inst::Mod(l, r) => (l, r),
            _ => vstd::pervasive::unreached(),
        }
    }
}

/// The compiler of one source text.
#[derive(Debug)]
pub struct Compiler<'a> {
    source: &'a str,
    state: CompilerState,
    ast: Vec<Inst>,
    oper_tk: Vec<(Loc, Token)>,
    idnt_tk: Vec<(Loc, Expr)>,
    fun_call: Vec<Vec<Vec<(Loc, Token)>>>,
    expr_buf: Vec<(Loc, Vec<(Loc, Token)>)>,
}

/// Whether an instruction can stand in a compiled program: not empty, not an empty expression.
pub open spec fn top_level(i: Inst) -> bool {
    !(i is Empty) && i != Inst::Expr(Expr::Empty)
}

/// The start of the source.
fn origin() -> (r: Loc)
    ensures
        r == (Loc { line: 0, col: 0, byte_idx: 0 }),
{
    Loc { line: 0, col: 0, byte_idx: 0 }
}

/// The error the parser gives for a token sequence it cannot build a tree of.
fn internal_error(loc: &Loc) -> (r: CompilerError)
    ensures
        r.line == loc.line,
        r.col == loc.col,
        r.msg@ == "compiler internal error"@,
{
    CompilerError::new_with_literal(loc, "compiler internal error")
}

/// A binary instruction's kind with empty operands, and its operands.
fn take_operands(i: Inst) -> (r: (Inst, Expr, Expr))
    requires
        is_binary(i),
    ensures
        is_binary(r.0),
        with_operands(r.0, r.1, r.2) == i,
        priority_of(r.0) == priority_of(i),
{
    match i {
        Inst::Assign(l, r) => (Inst::Assign(Expr::Empty, Expr::Empty), l, r),
        Inst::Add(l, r) => (Inst::Add(Expr::Empty, Expr::Empty), l, r),
        Inst::Sub(l, r) => (Inst::Sub(Expr::Empty, Expr::Empty), l, r),
        Inst::Div(l, r) => (Inst::Div(Expr::Empty, Expr::Empty), l, r),
        Inst::Mul(l, r) => (Inst::Mul(Expr::Empty, Expr::Empty), l, r),
        Inst::Pow(l, r) => (Inst::Pow(Expr::Empty, Expr::Empty), l, r),
        Inst::Mod(l, r) => (Inst::Mod(Expr::Empty, Expr::Empty), l, r),
        _ => vstd::pervasive::unreached(),
    }
}

/// A binary instruction of the kind of `shell` with the given operands.
fn rebuild(shell: Inst, l: Expr, r: Expr) -> (i: Inst)
    requires
        is_binary(shell),
    ensures
        i == with_operands(shell, l, r),
        is_binary(i),
{
    match shell {
        Inst::Assign(_, _) => Inst::Assign(l, r),
        Inst::Add(_, _) => Inst::Add(l, r),
        Inst::Sub(_, _) => Inst::Sub(l, r),
        Inst::Div(_, _) => Inst::Div(l, r),
        Inst::Mul(_, _) => Inst::Mul(l, r),
        Inst::Pow(_, _) => Inst::Pow(l, r),
        Inst::Mod(_, _) => Inst::Mod(l, r),
        _ => vstd::pervasive::unreached(),
    }
}

/// Whether an instruction is an operator, decided at run time.
fn operator_check(i: &Inst) -> (r: bool)
    ensures
        r == is_operator(*i),
{
    match i {
        Inst::Assign(_, _) | Inst::Add(_, _) | Inst::Sub(_, _) | Inst::Div(_, _) | Inst::Mul(_, _)
        | Inst::Pow(_, _) | Inst::Mod(_, _) | Inst::Neg(_) => true,
        _ => false,
    }
}

/// Whether an instruction is a binary operation, decided at run time.
fn binary_check(i: &Inst) -> (r: bool)
    ensures
        r == is_binary(*i),
{
    match i {
        Inst::Assign(_, _) | Inst::Add(_, _) | Inst::Sub(_, _) | Inst::Div(_, _) | Inst::Mul(_, _)
        | Inst::Pow(_, _) | Inst::Mod(_, _) => true,
        _ => false,
    }
}

/// The tree `insert_binary` builds, or `None` where it meets a node of the wrong kind.
pub open spec fn binary_into(node: Inst, oper: Token, lhs: Expr, steps: nat) -> Option<Inst>
    decreases steps,
{
    let cur = priority_of(binary_of(oper, Expr::Empty, Expr::Empty));
    let p = priority_of(node);
    if !is_operator(node) {
        None
    } else if steps > 0 && !(p > cur) {
        if !is_binary(node) {
            None
        } else {
            match operands(node).0 {
                Expr::Inst(b) => match binary_into(*b, oper, lhs, (steps - 1) as nat) {
                    Some(nl) => Some(with_operands(node, Expr::Inst(Box::new(nl)), operands(node).1)),
                    None => None,
                },
                _ => None,
            }
        }
    } else if cur >= p {
        if !is_binary(node) {
            None
        } else {
            Some(with_operands(node, Expr::Inst(Box::new(binary_of(oper, lhs, operands(node).0))), operands(node).1))
        }
    } else {
        Some(binary_of(oper, lhs, Expr::Inst(Box::new(node))))
    }
}

/// The tree `insert_neg` builds, or `None` where it meets a node of the wrong kind.
pub open spec fn neg_into(node: Inst, steps: nat) -> Option<Inst>
    decreases steps,
{
    if steps > 0 {
        if !is_binary(node) {
            None
        } else {
            match operands(node).0 {
                Expr::Inst(b) => match neg_into(*b, (steps - 1) as nat) {
                    Some(nl) => Some(with_operands(node, Expr::Inst(Box::new(nl)), operands(node).1)),
                    None => None,
                },
                _ => None,
            }
        }
    } else if !is_binary(node) {
        None
    } else {
        Some(with_operands(node, Expr::Inst(Box::new(Inst::Neg(operands(node).0))), operands(node).1))
    }
}

/// Puts the operator `oper` with left operand `lhs` into the tree `node` that holds its right
/// side: down the left spine for `steps` nodes at most while they bind no tighter, then either
/// around the left operand of the node reached (binding at least as tight) or around the node.
fn insert_binary(node: Inst, oper: &Token, lhs: Expr, steps: usize, depth: &mut usize, loc: &Loc)
    -> (r: Result<Inst, CompilerError>)
    requires
        is_binary_token(*oper),
        *old(depth) + steps + 2 <= usize::MAX,
    ensures
        *final(depth) <= *old(depth) + steps + 1,
        r matches Ok(i) ==> is_operator(i),
        r is Ok <==> binary_into(node, *oper, lhs, steps as nat) is Some,
        r matches Ok(i) ==> binary_into(node, *oper, lhs, steps as nat) == Some(i),
        r is Ok ==> *final(depth) == *old(depth) + binary_depth(node, *oper, steps as nat),
        r matches Err(e) ==> e.line == loc.line && e.col == loc.col && e.msg@ == "compiler internal error"@,
    decreases steps,
{
    let probe = Inst::from_binary_token(oper, Expr::Empty, Expr::Empty);
    let cur = probe.priority();
    if !operator_check(&node) {
        return Err(internal_error(loc));
    }
    let p = node.priority();
    if steps > 0 && !(p > cur) {
        *depth = *depth + 1;
        if !binary_check(&node) {
            return Err(internal_error(loc));
        }
        let (shell, l, r) = take_operands(node);
        match l {
            Expr::Inst(b) => {
                let nl = insert_binary(*b, oper, lhs, steps - 1, depth, loc)?;
                Ok(rebuild(shell, Expr::Inst(Box::new(nl)), r))
            },
            _ => Err(internal_error(loc)),
        }
    } else if cur >= p {
        *depth = *depth + 1;
        if !binary_check(&node) {
            return Err(internal_error(loc));
        }
        let (shell, l, r) = take_operands(node);
        let inner = Inst::from_binary_token(oper, lhs, l);
        Ok(rebuild(shell, Expr::Inst(Box::new(inner)), r))
    } else {
        Ok(Inst::from_binary_token(oper, lhs, Expr::Inst(Box::new(node))))
    }
}

/// Negates the left operand down the left spine of `node`, `steps` nodes deep.
fn insert_neg(node: Inst, steps: usize, depth: &mut usize, loc: &Loc) -> (r: Result<Inst, CompilerError>)
    requires
        *old(depth) + steps + 2 <= usize::MAX,
    ensures
        *final(depth) <= *old(depth) + steps + 1,
        r matches Ok(i) ==> is_operator(i),
        r is Ok <==> neg_into(node, steps as nat) is Some,
        r matches Ok(i) ==> neg_into(node, steps as nat) == Some(i),
        r is Ok ==> *final(depth) == *old(depth) + steps + 1,
        r matches Err(e) ==> e.line == loc.line && e.col == loc.col && e.msg@ == "compiler internal error"@,
    decreases steps,
{
    if steps > 0 {
        if !operator_check(&node) {
            return Err(internal_error(loc));
        }
        *depth = *depth + 1;
        if !binary_check(&node) {
            return Err(internal_error(loc));
        }
        let (shell, l, r) = take_operands(node);
        match l {
            Expr::Inst(b) => {
                let nl = insert_neg(*b, steps - 1, depth, loc)?;
                Ok(rebuild(shell, Expr::Inst(Box::new(nl)), r))
            },
            _ => Err(internal_error(loc)),
        }
    } else {
        *depth = *depth + 1;
        if !binary_check(&node) {
            return Err(internal_error(loc));
        }
        let (shell, l, r) = take_operands(node);
        Ok(rebuild(shell, Expr::Inst(Box::new(Inst::Neg(l))), r))
    }
}

/// Appends a token to the last line of a buffer.
fn push_to_last(buf: &mut Vec<(Loc, Vec<(Loc, Token)>)>, t: (Loc, Token))
    ensures
        final(buf)@.len() == old(buf)@.len() || (old(buf)@.len() == 0 && final(buf)@.len() == 1),
        old(buf)@.len() > 0 ==> {
            &&& final(buf)@.len() == old(buf)@.len()
            &&& forall|i: int| 0 <= i < old(buf)@.len() - 1 ==> final(buf)@[i] == old(buf)@[i]
            &&& final(buf)@.last().0 == old(buf)@.last().0
            &&& final(buf)@.last().1@ == old(buf)@.last().1@.push(t)
        },
        old(buf)@.len() == 0 ==> final(buf)@.len() == 1 && final(buf)@[0].0 == (Loc { line: 0, col: 0, byte_idx: 0 })
            && final(buf)@[0].1@ == seq![t],
{
    match buf.pop() {
        Some(line) => {
            let (loc, mut toks) = line;
            toks.push(t);
            buf.push((loc, toks));
        },
        None => {
            let mut toks = Vec::new();
            toks.push(t);
            buf.push((origin(), toks));
        },
    }
}

/// What an operand left alone on the stack makes as an instruction: an error for an empty one.
pub open spec fn operand_inst(e: Expr) -> Option<Inst> {
    match e {
        Expr::Empty => None,
        Expr::Inst(b) => match *b {
            Inst::Empty => None,
            Inst::Expr(Expr::Empty) => None,
            other => Some(other),
        },
        other => Some(Inst::Expr(other)),
    }
}

/// The tokens of a stack of located tokens.
pub open spec fn tokens_of(s: Seq<(Loc, Token)>) -> Seq<Token> {
    s.map_values(|p: (Loc, Token)| p.1)
}

/// The expressions of a stack of located expressions.
pub open spec fn exprs_of(s: Seq<(Loc, Expr)>) -> Seq<Expr> {
    s.map_values(|p: (Loc, Expr)| p.1)
}

/// How much `insert_binary` deepens the spine it walks (see `binary_into`).
pub open spec fn binary_depth(node: Inst, oper: Token, steps: nat) -> nat
    decreases steps,
{
    let cur = priority_of(binary_of(oper, Expr::Empty, Expr::Empty));
    if steps > 0 && !(priority_of(node) > cur) {
        match operands(node).0 {
            Expr::Inst(b) => 1 + binary_depth(*b, oper, (steps - 1) as nat),
            _ => 0,
        }
    } else if cur >= priority_of(node) {
        1
    } else {
        0
    }
}

/// The operator stack `ops` applied from its top to the operand stack `ids` down to the
/// first marker, which is taken off too; `d` is the length of the left spine of the tree on top
/// of `ids` that later operators may descend. A binary operator takes the two top operands; if a
/// tree was built before, it goes into that tree by precedence (see `binary_into`), else it
/// makes a new node. A negation wraps the top operand, or the left operand down the spine of
/// the tree on top. The result is the stacks left, or `None` where an operand is missing, a
/// tree cannot be built, the token is no operator or the spine grows past `2^31 - 1`.
pub open spec fn fold_ops(ops: Seq<Token>, ids: Seq<Expr>, d: nat) -> Option<(Seq<Token>, Seq<Expr>)>
    decreases ops.len(),
{
    if ops.len() == 0 {
        Some((ops, ids))
    } else if d >= 0x7fff_ffff {
        None
    } else {
        let rest = ops.drop_last();
        match ops.last() {
            Token::Empty => Some((rest, ids)),
            Token::NegSign => if ids.len() == 0 {
                None
            } else {
                match ids.last() {
                    Expr::Inst(b) => {
                        let steps: nat = if d > 1 { (d - 1) as nat } else { 0 };
                        match neg_into(*b, steps) {
                            Some(t) => fold_ops(rest, ids.drop_last().push(Expr::Inst(Box::new(t))), steps + 2),
                            None => None,
                        }
                    },
                    e => fold_ops(rest, ids.drop_last().push(Expr::Inst(Box::new(Inst::Neg(e)))), d),
                }
            },
            t => if !is_binary_token(t) || ids.len() < 2 {
                None
            } else {
                let rhs = ids.last();
                let lhs = ids.drop_last().last();
                let base = ids.drop_last().drop_last();
                if d == 0 {
                    fold_ops(rest, base.push(Expr::Inst(Box::new(binary_of(t, lhs, rhs)))), 1)
                } else {
                    match rhs {
                        Expr::Inst(b) => match binary_into(*b, t, lhs, (d - 1) as nat) {
                            Some(n) => fold_ops(rest, base.push(Expr::Inst(Box::new(n))), 1 + binary_depth(*b, t, (d - 1) as nat)),
                            None => None,
                        },
                        _ => None,
                    }
                }
            },
        }
    }
}

/// A token of a line without parentheses or calls: an operand or an operator.
pub open spec fn flat_token(t: Token) -> bool {
    t is Var || t is Number || t is Plus || t is Minus || t is Star || t is Slash || t is Mod
        || t is Eq || t is Pow || t is NegSign
}

/// The expression an instruction stands for: a bare expression is itself.
pub open spec fn inst_expr(i: Inst) -> Expr {
    match i {
        Inst::Empty => Expr::Empty,
        Inst::Expr(e) => e,
        other => Expr::Inst(Box::new(other)),
    }
}

/// The lines with a token added to the last one (a first line where there is none).
pub open spec fn append_last(lines: Seq<Seq<Token>>, x: Token) -> Seq<Seq<Token>> {
    if lines.len() == 0 {
        seq![seq![x]]
    } else {
        lines.drop_last().push(lines.last().push(x))
    }
}

/// The token lines of a line buffer.
pub open spec fn buf_lines(b: Seq<(Loc, Vec<(Loc, Token)>)>) -> Seq<Seq<Token>> {
    b.map_values(|l: (Loc, Vec<(Loc, Token)>)| tokens_of(l.1@))
}

/// The tokens of a lexed source.
pub open spec fn lexed_tokens(ts: Seq<(Loc, Token, Loc)>) -> Seq<Token> {
    ts.map_values(|t: (Loc, Token, Loc)| t.1)
}

/// One token of the source taken into the lines to parse; the state is the lines so far and
/// whether a `-` here would be a negation, whether an operand here would follow another one
/// (a product is implied between them, and two numbers in a row are refused) and whether a `(`
/// here would open the call of the variable before it. A newline starts a line. `None` for a
/// token the lexer never gives or two numbers in a row.
pub open spec fn prep_step(st: (Seq<Seq<Token>>, bool, bool, bool), t: Token) -> Option<(Seq<Seq<Token>>, bool, bool, bool)> {
    let lines = st.0;
    let neg = st.1;
    let mul = st.2;
    let func = st.3;
    match t {
        Token::Empty => None,
        Token::Newline => Some((lines.push(Seq::<Token>::empty()), false, false, false)),
        Token::Comma | Token::Eq | Token::Plus | Token::Minus | Token::Star | Token::Slash | Token::Mod =>
            if (t is Minus) && neg {
                Some((append_last(lines, Token::NegSign), false, false, false))
            } else {
                Some((append_last(lines, t), true, false, false))
            },
        Token::Number(_) => if mul { None } else { Some((append_last(lines, t), false, true, false)) },
        Token::Var(_) => if mul {
            Some((append_last(append_last(lines, Token::Star), t), false, true, true))
        } else {
            Some((append_last(lines, t), false, true, true))
        },
        Token::LParen => if func {
            if lines.len() > 0 && lines.last().len() > 0 && (lines.last().last() is Var) {
                let l = lines.last();
                Some((lines.drop_last().push(l.drop_last().push(Token::FunCall(l.last()->Var_0))), false, false, false))
            } else {
                None
            }
        } else if mul {
            Some((append_last(append_last(lines, Token::Star), Token::LParen), false, false, false))
        } else {
            Some((append_last(lines, Token::LParen), false, false, false))
        },
        _ => Some((append_last(lines, t), false, false, false)),
    }
}

/// The source's tokens taken into lines (see `prep_step`), from one empty line; `None` where a
/// token is refused.
pub open spec fn prep(ts: Seq<Token>) -> Option<(Seq<Seq<Token>>, bool, bool, bool)>
    decreases ts.len(),
{
    if ts.len() == 0 {
        Some((seq![Seq::<Token>::empty()], true, false, false))
    } else {
        match prep(ts.drop_last()) {
            Some(st) => prep_step(st, ts.last()),
            None => None,
        }
    }
}

proof fn lemma_prep_step(ts: Seq<Token>, k: int)
    requires
        0 <= k < ts.len(),
    ensures
        prep(ts.take(k + 1)) == (match prep(ts.take(k)) {
            Some(st) => prep_step(st, ts[k]),
            None => None,
        }),
{
    assert(ts.take(k + 1).drop_last() =~= ts.take(k));
    assert(ts.take(k + 1).last() == ts[k]);
}

/// What `push_to_last` does to the token lines of a buffer.
proof fn lemma_push_last(b1: Seq<(Loc, Vec<(Loc, Token)>)>, b2: Seq<(Loc, Vec<(Loc, Token)>)>, t: (Loc, Token))
    requires
        b1.len() > 0 ==> {
            &&& b2.len() == b1.len()
            &&& forall|i: int| 0 <= i < b1.len() - 1 ==> b2[i] == b1[i]
            &&& b2.last().1@ == b1.last().1@.push(t)
        },
        b1.len() == 0 ==> b2.len() == 1 && b2[0].1@ == seq![t],
    ensures
        buf_lines(b2) == append_last(buf_lines(b1), t.1),
{
    if b1.len() > 0 {
        assert(tokens_of(b2.last().1@) =~= tokens_of(b1.last().1@).push(t.1));
        assert(buf_lines(b2) =~= append_last(buf_lines(b1), t.1)) by {
            assert forall|i: int| 0 <= i < b1.len() - 1 implies buf_lines(b2)[i] == buf_lines(b1)[i] by {
                assert(b2[i] == b1[i]);
            }
        }
    } else {
        assert(tokens_of(b2[0].1@) =~= seq![t.1]);
        assert(buf_lines(b2) =~= append_last(buf_lines(b1), t.1));
    }
}

/// A token of a line of operands, operators and parentheses (no calls, no commas).
pub open spec fn paren_token(t: Token) -> bool {
    flat_token(t) || t is LParen || t is RParen
}

/// The scan of a line: the operator stack, the operand stack, how many parentheses are open
/// and where the tokens of the outermost open one start. Outside parentheses an operand goes
/// on the operand stack and an operator on the operator stack; the tokens inside are kept, and
/// when the outermost closes they are parsed as a line of their own on the same stacks (see
/// `parse_line`) and their expression, if any, goes on the operand stack. `None` where a token
/// cannot stand there.
pub open spec fn scan_line(ops: Seq<Token>, ids: Seq<Expr>, ts: Seq<Token>) -> Option<(Seq<Token>, Seq<Expr>, nat, int)>
    decreases ts.len(), 1nat,
{
    if ts.len() == 0 {
        Some((ops, ids, 0nat, 0int))
    } else {
        let n = ts.len() as int;
        match scan_line(ops, ids, ts.drop_last()) {
            None => None,
            Some(st) => if 0 <= st.3 <= n - 1 {
                scan_step(st, ts.last(), ts.subrange(st.3, n - 1))
            } else {
                None
            },
        }
    }
}

/// One token of a line scanned (see `scan_line`); `group` holds the tokens of the outermost open
/// parenthesis so far.
pub open spec fn scan_step(st: (Seq<Token>, Seq<Expr>, nat, int), t: Token, group: Seq<Token>) -> Option<(Seq<Token>, Seq<Expr>, nat, int)>
    decreases group.len() + 1, 0nat,
{
    let o = st.0;
    let i = st.1;
    let p = st.2;
    if p > 0 {
        match t {
            Token::LParen | Token::FunCall(_) => Some((o, i, p + 1, st.3)),
            Token::RParen => if p == 1 {
                match parse_line(o, i, group) {
                    Some(r) => Some((r.0, if r.2 is Empty { r.1 } else { r.1.push(r.2) }, 0nat, 0int)),
                    None => None,
                }
            } else {
                Some((o, i, (p - 1) as nat, st.3))
            },
            Token::Empty | Token::Newline => None,
            _ => Some(st),
        }
    } else {
        match t {
            Token::LParen => Some((o, i, 1nat, st.3 + group.len() + 1)),
            Token::Var(n) => Some((o, i.push(Expr::Var(n)), 0nat, st.3)),
            Token::Number(d) => Some((o, i.push(Expr::Number(d)), 0nat, st.3)),
            _ => if flat_token(t) { Some((o.push(t), i, 0nat, st.3)) } else { None },
        }
    }
}

/// A line parsed on the stacks `ops` and `ids`: a marker goes on the operator stack, the line is
/// scanned, and the operators down to the marker are folded (see `fold_ops`); the expression is
/// the operand left on top, or empty where there is none. `None` where the line is refused (a
/// parenthesis left open, a missing operand, a token out of place).
pub open spec fn parse_line(ops: Seq<Token>, ids: Seq<Expr>, ts: Seq<Token>) -> Option<(Seq<Token>, Seq<Expr>, Expr)>
    decreases ts.len(), 2nat,
{
    if ts.len() == 0 {
        Some((ops, ids, Expr::Empty))
    } else {
        match scan_line(ops.push(Token::Empty), ids, ts) {
            None => None,
            Some(st) => if st.2 > 0 {
                None
            } else {
                match fold_ops(st.0, st.1, 0) {
                    None => None,
                    Some(f) => if f.1.len() == 0 {
                        Some((f.0, f.1, Expr::Empty))
                    } else {
                        match operand_inst(f.1.last()) {
                            None => None,
                            Some(x) => Some((f.0, f.1.drop_last(), inst_expr(x))),
                        }
                    },
                }
            },
        }
    }
}

/// The expression of an argument that is parsed on the stacks `ops` and `ids` and leaves them
/// as they were.
pub open spec fn closed_arg(ops: Seq<Token>, ids: Seq<Expr>, g: Seq<Token>) -> Option<Expr> {
    match parse_line(ops, ids, g) {
        Some(r) => if r.0 == ops && r.1 == ids { Some(r.2) } else { None },
        None => None,
    }
}

proof fn lemma_scan_prefix_none(ops: Seq<Token>, ids: Seq<Expr>, ts: Seq<Token>, k: int)
    requires
        0 <= k <= ts.len(),
        scan_line(ops, ids, ts.take(k)) is None,
    ensures
        scan_line(ops, ids, ts) is None,
    decreases ts.len() - k,
{
    if k == ts.len() {
        assert(ts.take(k) =~= ts);
    } else {
        assert(ts.take(k + 1).drop_last() =~= ts.take(k));
        lemma_scan_prefix_none(ops, ids, ts, k + 1);
    }
}

proof fn lemma_scan_step(ops: Seq<Token>, ids: Seq<Expr>, ts: Seq<Token>, k: int)
    requires
        0 <= k < ts.len(),
    ensures
        scan_line(ops, ids, ts.take(k + 1)) == (match scan_line(ops, ids, ts.take(k)) {
            Some(st) => if 0 <= st.3 <= k { scan_step(st, ts[k], ts.subrange(st.3, k)) } else { None },
            None => None,
        }),
{
    assert(ts.take(k + 1).drop_last() =~= ts.take(k));
    assert(ts.take(k + 1).last() == ts[k]);
    match scan_line(ops, ids, ts.take(k)) {
        Some(st) => {
            if 0 <= st.3 <= k {
                assert(ts.take(k + 1).subrange(st.3, k) =~= ts.subrange(st.3, k));
            }
        },
        None => {},
    }
}

/// Every line holds only operands, operators and parentheses: no calls, no commas.
pub open spec fn call_free(lines: Seq<Seq<Token>>) -> bool {
    forall|i: int, j: int| 0 <= i < lines.len() && 0 <= j < lines[i].len() ==> paren_token(#[trigger] lines[i][j])
}

/// What an expression parsed from a line adds to the program: nothing for an empty one,
/// `None` for an empty instruction.
pub open spec fn program_item(e: Expr) -> Option<Option<Inst>> {
    match e {
        Expr::Empty => Some(None),
        Expr::Inst(b) => if *b is Empty || *b == Inst::Expr(Expr::Empty) { None } else { Some(Some(*b)) },
        other => Some(Some(Inst::Expr(other))),
    }
}

/// The instructions lines compile to, one line after another (see `parse_line`), with the
/// operator and operand stacks they leave (operands a line does not use stay for the next
/// one). An empty line adds nothing; a line with no operand at all adds the number 0, written
/// here as `None`. `None` as a whole where a line is refused.
pub open spec fn prog_lines(lines: Seq<Seq<Token>>) -> Option<(Seq<Option<Inst>>, Seq<Token>, Seq<Expr>)>
    decreases lines.len(),
{
    if lines.len() == 0 {
        Some((Seq::<Option<Inst>>::empty(), Seq::<Token>::empty(), Seq::<Expr>::empty()))
    } else {
        match prog_lines(lines.drop_last()) {
            None => None,
            Some(g) => {
                let l = lines.last();
                match parse_line(g.1, g.2, l) {
                    None => None,
                    Some(pr) => if pr.2 is Empty {
                        if l.len() == 0 { Some((g.0, pr.0, pr.1)) } else { Some((g.0.push(None), pr.0, pr.1)) }
                    } else {
                        match program_item(pr.2) {
                            Some(Some(x)) => Some((g.0.push(Some(x)), pr.0, pr.1)),
                            _ => None,
                        }
                    },
                }
            },
        }
    }
}

/// The program a source's lines compile to, where every operand was used.
pub open spec fn program(lines: Seq<Seq<Token>>) -> Option<Seq<Option<Inst>>> {
    match prog_lines(lines) {
        Some(g) => if g.2.len() == 0 { Some(g.0) } else { None },
        None => None,
    }
}

/// The first `k` lines compiled: the instructions so far match, and the stacks are the ones given.
pub open spec fn prog_state(lines: Seq<Seq<Token>>, k: int, ast: Seq<Inst>, ops: Seq<Token>, ids: Seq<Expr>) -> bool {
    match prog_lines(lines.take(k)) {
        Some(g) => ast_matches(ast, g.0) && g.1 == ops && g.2 == ids,
        None => false,
    }
}

proof fn lemma_matches_push(ast: Seq<Inst>, pg: Seq<Option<Inst>>, x: Inst, y: Option<Inst>)
    requires
        ast_matches(ast, pg),
        y matches Some(v) ==> x == v,
        y is None ==> (x matches Inst::Expr(Expr::Number(z)) && z@ == "0"@),
    ensures
        ast_matches(ast.push(x), pg.push(y)),
{
    assert forall|i: int| 0 <= i < pg.push(y).len() implies match #[trigger] pg.push(y)[i] {
        Some(v) => ast.push(x)[i] == v,
        None => ast.push(x)[i] matches Inst::Expr(Expr::Number(z)) && z@ == "0"@,
    } by {
        if i < pg.len() {
            assert(pg.push(y)[i] == pg[i]);
            assert(ast.push(x)[i] == ast[i]);
        }
    }
}

/// A list of instructions is the program `pg`: the same instructions, the number 0 where `pg`
/// holds `None`.
pub open spec fn ast_matches(ast: Seq<Inst>, pg: Seq<Option<Inst>>) -> bool {
    &&& ast.len() == pg.len()
    &&& forall|i: int| 0 <= i < pg.len() ==> match #[trigger] pg[i] {
        Some(x) => ast[i] == x,
        None => ast[i] matches Inst::Expr(Expr::Number(z)) && z@ == "0"@,
    }
}

proof fn lemma_prep_prefix_none(ts: Seq<Token>, k: int)
    requires
        0 <= k <= ts.len(),
        prep(ts.take(k)) is None,
    ensures
        prep(ts) is None,
    decreases ts.len() - k,
{
    if k == ts.len() {
        assert(ts.take(k) =~= ts);
    } else {
        assert(ts.take(k + 1).drop_last() =~= ts.take(k));
        lemma_prep_prefix_none(ts, k + 1);
    }
}

proof fn lemma_prog_prefix_none(lines: Seq<Seq<Token>>, k: int)
    requires
        0 <= k <= lines.len(),
        prog_lines(lines.take(k)) is None,
    ensures
        prog_lines(lines) is None,
    decreases lines.len() - k,
{
    if k == lines.len() {
        assert(lines.take(k) =~= lines);
    } else {
        assert(lines.take(k + 1).drop_last() =~= lines.take(k));
        lemma_prog_prefix_none(lines, k + 1);
    }
}

/// What compiling the lexed tokens `tk` gives: an error where a token is refused; for lines
/// without calls (operands, operators and parentheses), the program they denote (see
/// `program`), and an error exactly where there is none.
pub open spec fn compile_result(tk: Seq<(Loc, Token, Loc)>, r: Result<Vec<Inst>, CompilerError>) -> bool {
    &&& prep(lexed_tokens(tk)) is None ==> r is Err
    &&& (prep(lexed_tokens(tk)) matches Some(st) ==> call_free(st.0) ==> {
        &&& r is Ok <==> program(st.0) is Some
        &&& r matches Ok(ast) ==> ast_matches(ast@, program(st.0)->0)
    })
}

impl<'a> Compiler<'a> {
    /// A compiler of a source text.
    pub fn new(source: &'a str) -> (r: Self)
        ensures
            r.source() == source,
            r.wf(),
            r.fresh(),
    {
        Compiler {
            source,
            state: CompilerState { in_paren: 0, in_expr: 0, in_funcall: 0, expr_depth: 0 },
            ast: Vec::new(),
            oper_tk: Vec::new(),
            idnt_tk: Vec::new(),
            fun_call: Vec::new(),
            expr_buf: Vec::new(),
        }
    }

    /// A compiler that has compiled nothing yet: no instructions, no buffered tokens.
    pub closed spec fn fresh(&self) -> bool {
        &&& self.state.in_paren == 0 && self.state.in_funcall == 0 && self.state.in_expr == 0
        &&& self.ast@.len() == 0
        &&& self.expr_buf@.len() == 0
        &&& self.idnt_tk@.len() == 0
        &&& self.oper_tk@.len() == 0
        &&& self.fun_call@.len() == 0
    }

    /// The source text.
    pub closed spec fn source(&self) -> &'a str {
        self.source
    }

    /// The instructions gathered so far can stand in a program.
    pub closed spec fn wf(&self) -> bool {
        forall|i: int| 0 <= i < self.ast@.len() ==> #[trigger] top_level(self.ast@[i])
    }

    /// Appends a token to the current argument of the innermost open call.
    fn push_to_call(&mut self, t: (Loc, Token))
        ensures
            final(self).ast@ == old(self).ast@,
            final(self).source == old(self).source,
            final(self).state == old(self).state,
            final(self).oper_tk@ == old(self).oper_tk@,
            final(self).idnt_tk@ == old(self).idnt_tk@,
            final(self).expr_buf@ == old(self).expr_buf@,
            ({
                let f0 = old(self).fun_call@;
                let f1 = final(self).fun_call@;
                let g0 = if f0.len() == 0 { Seq::<Vec<(Loc, Token)>>::empty() } else { f0.last()@ };
                let g1 = f1.last()@;
                let a0 = if g0.len() == 0 { Seq::<(Loc, Token)>::empty() } else { g0.last()@ };
                &&& f1.len() == (if f0.len() == 0 { 1 } else { f0.len() })
                &&& forall|i: int| 0 <= i < f0.len() - 1 ==> f1[i] == f0[i]
                &&& g1.len() == (if g0.len() == 0 { 1 } else { g0.len() })
                &&& forall|j: int| 0 <= j < g0.len() - 1 ==> g1[j] == g0[j]
                &&& g1.last()@ == a0.push(t)
            }),
    {
        let mut group = match self.fun_call.pop() {
            Some(g) => g,
            None => Vec::new(),
        };
        let mut arg = match group.pop() {
            Some(a) => a,
            None => Vec::new(),
        };
        arg.push(t);
        group.push(arg);
        self.fun_call.push(group);
    }

    /// Builds the instruction of the operators and operands stacked since the last marker; the
    /// empty instruction where there is no operand at all (a line of empty parentheses).
    fn parse_inst(&mut self, rloc: &Loc) -> (r: Result<Inst, CompilerError>)
        ensures
            r matches Ok(i) ==> i != Inst::Expr(Expr::Empty),
            final(self).ast@ == old(self).ast@,
            final(self).expr_buf == old(self).expr_buf,
            final(self).state.in_paren == old(self).state.in_paren,
            final(self).state.in_funcall == old(self).state.in_funcall,
            final(self).state.in_expr == old(self).state.in_expr,
            old(self).oper_tk@.len() == 0 || old(self).oper_tk@.last().1 is Empty ==> {
                let ids = old(self).idnt_tk@;
                &&& final(self).oper_tk@ == (if old(self).oper_tk@.len() == 0 { old(self).oper_tk@ } else { old(self).oper_tk@.drop_last() })
                &&& ids.len() == 0 ==> final(self).idnt_tk@ == ids && r == Ok::<Inst, CompilerError>(Inst::Empty)
                &&& ids.len() > 0 ==> final(self).idnt_tk@ == ids.drop_last()
                &&& ids.len() > 0 ==> (r is Ok <==> operand_inst(ids.last().1) is Some)
                &&& ids.len() > 0 ==> (r matches Ok(i) ==> operand_inst(ids.last().1) == Some(i))
            },
            ({
                let f = fold_ops(tokens_of(old(self).oper_tk@), exprs_of(old(self).idnt_tk@), 0);
                &&& f is None ==> r is Err
                &&& f matches Some((ops2, ids2)) ==> {
                    &&& tokens_of(final(self).oper_tk@) == ops2
                    &&& ids2.len() == 0 ==> exprs_of(final(self).idnt_tk@) == ids2 && r == Ok::<Inst, CompilerError>(Inst::Empty)
                    &&& ids2.len() > 0 ==> exprs_of(final(self).idnt_tk@) == ids2.drop_last()
                        && (r is Ok <==> operand_inst(ids2.last()) is Some)
                        && (r matches Ok(i) ==> operand_inst(ids2.last()) == Some(i))
                }
            }),
    {
        let ghost f0 = fold_ops(tokens_of(old(self).oper_tk@), exprs_of(old(self).idnt_tk@), 0);
        let ghost ast0 = self.ast@;
        let ghost marker = old(self).oper_tk@.len() == 0 || old(self).oper_tk@.last().1 is Empty;
        let ghost mut started = false;
        let ghost mut popped = false;
        self.state.expr_depth = 0;
        while self.oper_tk.len() > 0
            invariant_except_break
                !popped,
                fold_ops(tokens_of(self.oper_tk@), exprs_of(self.idnt_tk@), self.state.expr_depth as nat) == f0,
                !started ==> self.oper_tk@ == old(self).oper_tk@ && self.idnt_tk@ == old(self).idnt_tk@
                    && self.state.expr_depth == 0,
            invariant
                self.state.expr_depth <= 0x8000_0000,
                self.expr_buf == old(self).expr_buf,
                self.state.in_paren == old(self).state.in_paren,
                self.state.in_funcall == old(self).state.in_funcall,
                self.state.in_expr == old(self).state.in_expr,
                self.ast@ == ast0,
                ast0 == old(self).ast@,
                marker == (old(self).oper_tk@.len() == 0 || old(self).oper_tk@.last().1 is Empty),
                marker ==> !started,
                f0 == fold_ops(tokens_of(old(self).oper_tk@), exprs_of(old(self).idnt_tk@), 0),
            ensures
                f0 == Some((tokens_of(self.oper_tk@), exprs_of(self.idnt_tk@))),
                marker ==> self.oper_tk@ == (if old(self).oper_tk@.len() == 0 { old(self).oper_tk@ } else { old(self).oper_tk@.drop_last() })
                    && self.idnt_tk@ == old(self).idnt_tk@,
            decreases self.oper_tk@.len(),
        {
            let ghost before = self.oper_tk@;
            let ghost ids_before = self.idnt_tk@;
            let ghost d0 = self.state.expr_depth as nat;
            let (lloc, oper) = match self.oper_tk.pop() {
                Some(x) => x,
                None => { break; },
            };
            proof {
                assert(tokens_of(self.oper_tk@) =~= tokens_of(before).drop_last());
                assert(tokens_of(before).last() == oper);
            }
            proof {
                if !started {
                    assert(before == old(self).oper_tk@);
                    assert(oper == before.last().1);
                }
            }
            if self.state.expr_depth >= 0x7fff_ffff {
                return Err(internal_error(&lloc));
            }
            match oper {
                Token::Empty => {
                    proof {
                        if !started {
                            popped = true;
                        }
                    }
                    break;
                },
                Token::NegSign => {
                    let idnt = match self.idnt_tk.pop() {
                        Some((_, e)) => e,
                        None => {
                            return Err(CompilerError::new_with_literal(&lloc, "expected identifier or expression"));
                        },
                    };
                    let ghost ids1 = self.idnt_tk@;
                    proof {
                        assert(exprs_of(ids1) =~= exprs_of(ids_before).drop_last());
                        assert(exprs_of(ids_before).last() == idnt);
                    }
                    match idnt {
                        Expr::Inst(inst) => {
                            let d = self.state.expr_depth;
                            let steps = if d > 1 { d - 1 } else { 0 };
                            let mut depth: usize = 1;
                            let res = insert_neg(*inst, steps, &mut depth, &lloc)?;
                            self.state.expr_depth = depth;
                            let ghost pushed = Expr::Inst(Box::new(res));
                            self.idnt_tk.push((lloc, Expr::Inst(Box::new(res))));
                            proof {
                                assert(exprs_of(self.idnt_tk@) =~= exprs_of(ids1).push(pushed));
                            }
                        },
                        other => {
                            let ghost pushed = Expr::Inst(Box::new(Inst::Neg(other)));
                            self.idnt_tk.push((lloc, Expr::Inst(Box::new(Inst::Neg(other)))));
                            proof {
                                assert(exprs_of(self.idnt_tk@) =~= exprs_of(ids1).push(pushed));
                            }
                        },
                    }
                },
                Token::Plus | Token::Minus | Token::Star | Token::Slash | Token::Pow | Token::Eq | Token::Mod => {
                    let rhs = match self.idnt_tk.pop() {
                        Some((_, e)) => e,
                        None => {
                            return Err(CompilerError::new_with_literal(&lloc, "expected identifier or expression (missing RHS)"));
                        },
                    };
                    let ghost ids1 = self.idnt_tk@;
                    let (lhs_loc, lhs) = match self.idnt_tk.pop() {
                        Some(x) => x,
                        None => {
                            return Err(CompilerError::new_with_literal(&lloc, "expected identifier or expression (missing LHS)"));
                        },
                    };
                    let ghost ids2 = self.idnt_tk@;
                    proof {
                        assert(exprs_of(ids1) =~= exprs_of(ids_before).drop_last());
                        assert(exprs_of(ids_before).last() == rhs);
                        assert(exprs_of(ids2) =~= exprs_of(ids1).drop_last());
                        assert(exprs_of(ids1).last() == lhs);
                    }
                    if self.state.expr_depth == 0 {
                        self.state.expr_depth = 1;
                        let inst = Inst::from_binary_token(&oper, lhs, rhs);
                        let ghost pushed = Expr::Inst(Box::new(inst));
                        self.idnt_tk.push((lhs_loc, Expr::Inst(Box::new(inst))));
                        proof {
                            assert(exprs_of(self.idnt_tk@) =~= exprs_of(ids2).push(pushed));
                        }
                    } else {
                        let node = match rhs {
                            Expr::Inst(b) => *b,
                            _ => {
                                return Err(internal_error(&lloc));
                            },
                        };
                        let d = self.state.expr_depth;
                        let mut depth: usize = 1;
                        let res = insert_binary(node, &oper, lhs, d - 1, &mut depth, &lloc)?;
                        self.state.expr_depth = depth;
                        let ghost pushed = Expr::Inst(Box::new(res));
                        self.idnt_tk.push((lhs_loc, Expr::Inst(Box::new(res))));
                        proof {
                            assert(exprs_of(self.idnt_tk@) =~= exprs_of(ids2).push(pushed));
                        }
                    }
                },
                _ => {
                    return Err(internal_error(&lloc));
                },
            }
            proof {
                if !started {
                    assert(before == old(self).oper_tk@);
                    assert(oper == before.last().1);
                }
                started = true;
            }
        }
        let ghost ids_end = self.idnt_tk@;
        let expr = match self.idnt_tk.pop() {
            Some((_, e)) => e,
            None => {
                return Ok(Inst::Empty);
            },
        };
        proof {
            assert(exprs_of(self.idnt_tk@) =~= exprs_of(ids_end).drop_last());
            assert(exprs_of(ids_end).last() == expr);
        }
        match expr {
            Expr::Empty => Err(internal_error(rloc)),
            Expr::Inst(inst) => {
                let i = *inst;
                match i {
                    Inst::Empty => Err(internal_error(rloc)),
                    Inst::Expr(Expr::Empty) => Err(internal_error(rloc)),
                    other => Ok(other),
                }
            },
            other => Ok(Inst::Expr(other)),
        }
    }

    /// Parses the last line of the buffer into an expression (empty for an empty line): tokens
    /// inside parentheses or calls go to their own buffers and are parsed when they close (empty
    /// parentheses give no operand); `fuel` bounds the nesting.
    fn parse_expr(&mut self, fuel: usize) -> (r: Result<Expr, CompilerError>)
        ensures
            final(self).ast@ == old(self).ast@,
            old(self).expr_buf@.len() == 0 ==> r == Ok::<Expr, CompilerError>(Expr::Empty) && *final(self) == *old(self),
            old(self).expr_buf@.len() > 0 && old(self).expr_buf@.last().1@.len() == 0 ==> {
                &&& r == Ok::<Expr, CompilerError>(Expr::Empty)
                &&& final(self).expr_buf@ == old(self).expr_buf@.drop_last()
                &&& final(self).idnt_tk@ == old(self).idnt_tk@
                &&& final(self).oper_tk@ == old(self).oper_tk@
                &&& final(self).state == old(self).state
            },
            old(self).expr_buf@.len() > 0 && fuel > old(self).expr_buf@.last().1@.len()
                && old(self).state.in_paren == 0 && old(self).state.in_funcall == 0 && old(self).state.in_expr == 0
                && (forall|i: int| 0 <= i < old(self).expr_buf@.last().1@.len() ==> paren_token(#[trigger] old(self).expr_buf@.last().1@[i].1)) ==> {
                let pl = parse_line(tokens_of(old(self).oper_tk@), exprs_of(old(self).idnt_tk@), tokens_of(old(self).expr_buf@.last().1@));
                &&& r is Ok ==> final(self).expr_buf@ == old(self).expr_buf@.drop_last()
                &&& r is Ok ==> final(self).state.in_paren == 0 && final(self).state.in_funcall == 0 && final(self).state.in_expr == 0
                &&& pl is None ==> r is Err
                &&& pl matches Some(res) ==> r == Ok::<Expr, CompilerError>(res.2)
                    && tokens_of(final(self).oper_tk@) == res.0 && exprs_of(final(self).idnt_tk@) == res.1
            },
        decreases fuel,
    {
        let ghost ast0 = self.ast@;
        let ghost good = old(self).expr_buf@.len() > 0 && fuel > old(self).expr_buf@.last().1@.len()
            && old(self).state.in_paren == 0 && old(self).state.in_funcall == 0 && old(self).state.in_expr == 0
            && (forall|i: int| 0 <= i < old(self).expr_buf@.last().1@.len() ==> paren_token(#[trigger] old(self).expr_buf@.last().1@[i].1));
        let ghost toks = if old(self).expr_buf@.len() > 0 { old(self).expr_buf@.last().1@ } else { Seq::empty() };
        let ghost ts = tokens_of(toks);
        let ghost base = old(self).expr_buf@.drop_last();
        let ghost ops0 = tokens_of(old(self).oper_tk@).push(Token::Empty);
        let ghost ids0 = exprs_of(old(self).idnt_tk@);
        if self.expr_buf.len() == 0 {
            return Ok(Expr::Empty);
        }
        let (rloc, tokens) = match self.expr_buf.pop() {
            Some(x) => x,
            None => {
                return Ok(Expr::Empty);
            },
        };
        if tokens.len() == 0 {
            return Ok(Expr::Empty);
        }
        if fuel == 0 {
            return Err(internal_error(&rloc));
        }
        let ghost ops_in = self.oper_tk@;
        self.oper_tk.push((origin(), Token::Empty));
        proof {
            assert(tokens_of(self.oper_tk@) =~= tokens_of(ops_in).push(Token::Empty));
            assert(ts.take(0) =~= Seq::<Token>::empty());
        }
        let mut rest: Vec<(Loc, Token)> = Vec::new();
        let mut src = tokens;
        let ghost pre = *self;
        while src.len() > 0
            invariant
                *self == pre,
                src@.len() + rest@.len() == toks.len(),
                forall|i: int| 0 <= i < src@.len() ==> src@[i] == toks[i],
                forall|i: int| 0 <= i < rest@.len() ==> rest@[i] == toks[toks.len() - 1 - i],
            ensures
                src@.len() == 0,
            decreases src@.len(),
        {
            match src.pop() {
                Some(t) => rest.push(t),
                None => { break; },
            }
        }
        let ghost mut gs: int = 0;
        proof {
            if good {
                assert(rest@.len() == toks.len());
                assert(ops_in == old(self).oper_tk@);
                assert(self.expr_buf@ == base);
            }
        }
        while rest.len() > 0
            invariant
                good ==> {
                    let k = toks.len() - rest@.len();
                    &&& rest@.len() <= toks.len()
                    &&& forall|i: int| 0 <= i < rest@.len() ==> rest@[i] == toks[toks.len() - 1 - i]
                    &&& self.state.in_funcall == 0 && self.state.in_expr == 0
                    &&& self.state.in_paren <= k
                    &&& scan_line(ops0, ids0, ts.take(k)) == Some((tokens_of(self.oper_tk@), exprs_of(self.idnt_tk@), self.state.in_paren as nat, gs))
                    &&& 0 <= gs <= k
                    &&& self.state.in_paren == 0 ==> self.expr_buf@ == base
                    &&& self.state.in_paren > 0 ==> self.expr_buf@.len() == base.len() + 1 && self.expr_buf@.drop_last() == base
                        && tokens_of(self.expr_buf@.last().1@) == ts.subrange(gs, k)
                },
                good == (old(self).expr_buf@.len() > 0 && fuel > old(self).expr_buf@.last().1@.len()
                    && old(self).state.in_paren == 0 && old(self).state.in_funcall == 0 && old(self).state.in_expr == 0
                    && (forall|i: int| 0 <= i < old(self).expr_buf@.last().1@.len() ==> paren_token(#[trigger] old(self).expr_buf@.last().1@[i].1))),
                toks == (if old(self).expr_buf@.len() > 0 { old(self).expr_buf@.last().1@ } else { Seq::empty() }),
                ts == tokens_of(toks),
                base == old(self).expr_buf@.drop_last(),
                ops0 == tokens_of(old(self).oper_tk@).push(Token::Empty),
                ids0 == exprs_of(old(self).idnt_tk@),
                fuel > 0,
                self.ast@ == ast0,
                ast0 == old(self).ast@,
                old(self).expr_buf@.len() > 0 && old(self).expr_buf@.last().1@.len() > 0,
            ensures
                rest@.len() == 0,
            decreases rest@.len(),
        {
            let ghost k = toks.len() - rest@.len();
            let ghost ops_k = self.oper_tk@;
            let ghost ids_k = self.idnt_tk@;
            let ghost buf_k = self.expr_buf@;
            let ghost p_k = self.state.in_paren;
            let (lloc, token) = match rest.pop() {
                Some(x) => x,
                None => { break; },
            };
            let ghost tk = token;
            proof {
                if good {
                    assert(toks[k] == (lloc, token));
                    assert(paren_token(toks[k].1));
                    assert(ts[k] == token);
                    lemma_scan_step(ops0, ids0, ts, k);
                    assert(ts.subrange(gs, k + 1) =~= ts.subrange(gs, k).push(tk));
                }
            }
            if self.state.in_paren > 0 {
                match token {
                    Token::LParen | Token::FunCall(_) => {
                        if self.state.in_paren == usize::MAX {
                            return Err(internal_error(&lloc));
                        }
                        self.state.in_paren = self.state.in_paren + 1;
                        push_to_last(&mut self.expr_buf, (lloc, token));
                        proof {
                            if good {
                                assert(tokens_of(self.expr_buf@.last().1@) =~= tokens_of(buf_k.last().1@).push(tk));
                                assert(self.expr_buf@.drop_last() =~= buf_k.drop_last());
                            }
                        }
                    },
                    Token::RParen => {
                        self.state.in_paren = self.state.in_paren - 1;
                        if self.state.in_paren == 0 {
                            proof {
                                if good {
                                    assert forall|i: int| 0 <= i < self.expr_buf@.last().1@.len()
                                        implies paren_token(#[trigger] self.expr_buf@.last().1@[i].1) by {
                                        assert(tokens_of(self.expr_buf@.last().1@)[i] == ts[gs + i]);
                                        assert(paren_token(toks[gs + i].1));
                                    }
                                }
                            }
                            let expr = match self.parse_expr(fuel - 1) {
                                Ok(e) => e,
                                Err(err) => {
                                    proof {
                                        if good {
                                            lemma_scan_prefix_none(ops0, ids0, ts, k + 1);
                                        }
                                    }
                                    return Err(err);
                                },
                            };
                            let ghost ids_e = self.idnt_tk@;
                            match expr {
                                Expr::Empty => {},
                                e => {
                                    let ghost eg = e;
                                    self.idnt_tk.push((lloc, e));
                                    proof {
                                        assert(exprs_of(self.idnt_tk@) =~= exprs_of(ids_e).push(eg));
                                    }
                                },
                            }
                            proof {
                                if good {
                                    gs = 0;
                                }
                            }
                        } else {
                            push_to_last(&mut self.expr_buf, (lloc, Token::RParen));
                            proof {
                                if good {
                                    assert(tokens_of(self.expr_buf@.last().1@) =~= tokens_of(buf_k.last().1@).push(tk));
                                    assert(self.expr_buf@.drop_last() =~= buf_k.drop_last());
                                }
                            }
                        }
                    },
                    Token::Empty | Token::Newline => {
                        return Err(internal_error(&lloc));
                    },
                    other => {
                        push_to_last(&mut self.expr_buf, (lloc, other));
                        proof {
                            if good {
                                assert(tokens_of(self.expr_buf@.last().1@) =~= tokens_of(buf_k.last().1@).push(tk));
                                assert(self.expr_buf@.drop_last() =~= buf_k.drop_last());
                            }
                        }
                    },
                }
            } else if self.state.in_funcall > 0 {
                match token {
                    Token::FunCall(_) | Token::LParen => {
                        if self.state.in_funcall == usize::MAX {
                            return Err(internal_error(&lloc));
                        }
                        self.state.in_funcall = self.state.in_funcall + 1;
                        self.push_to_call((lloc, token));
                    },
                    Token::RParen => {
                        self.state.in_funcall = self.state.in_funcall - 1;
                        if self.state.in_funcall == 0 {
                            let expr = self.parse_funcall(fuel - 1, &lloc)?;
                            self.idnt_tk.push((lloc, expr));
                        } else {
                            self.push_to_call((lloc, Token::RParen));
                        }
                    },
                    Token::Comma => {
                        if self.state.in_funcall == 1 {
                            let mut group = match self.fun_call.pop() {
                                Some(g) => g,
                                None => Vec::new(),
                            };
                            group.push(Vec::new());
                            self.fun_call.push(group);
                        } else {
                            self.push_to_call((lloc, Token::Comma));
                        }
                    },
                    Token::Empty | Token::Newline => {
                        return Err(internal_error(&lloc));
                    },
                    other => {
                        self.push_to_call((lloc, other));
                    },
                }
            } else {
                match token {
                    Token::LParen => {
                        self.state.in_paren = 1;
                        self.expr_buf.push((lloc, Vec::new()));
                        proof {
                            if good {
                                gs = k + 1;
                                assert(tokens_of(self.expr_buf@.last().1@) =~= ts.subrange(gs, k + 1));
                                assert(self.expr_buf@.drop_last() =~= buf_k);
                            }
                        }
                    },
                    Token::RParen => {
                        proof {
                            if good {
                                lemma_scan_prefix_none(ops0, ids0, ts, k + 1);
                            }
                        }
                        return Err(CompilerError::new_with_literal(&lloc, "missing left paren"));
                    },
                    Token::FunCall(name) => {
                        self.state.in_funcall = 1;
                        let mut head: Vec<(Loc, Token)> = Vec::new();
                        head.push((lloc, Token::Var(name)));
                        let mut group: Vec<Vec<(Loc, Token)>> = Vec::new();
                        group.push(head);
                        group.push(Vec::new());
                        self.fun_call.push(group);
                    },
                    Token::Comma => {
                        return Err(CompilerError::new_with_literal(&lloc, "comma found outside function call"));
                    },
                    Token::Var(name) => {
                        self.idnt_tk.push((lloc, Expr::Var(name)));
                        proof {
                            assert(exprs_of(self.idnt_tk@) =~= exprs_of(ids_k).push(Expr::Var(name)));
                        }
                    },
                    Token::Number(data) => {
                        self.idnt_tk.push((lloc, Expr::Number(data)));
                        proof {
                            assert(exprs_of(self.idnt_tk@) =~= exprs_of(ids_k).push(Expr::Number(data)));
                        }
                    },
                    Token::Empty | Token::Newline => {
                        return Err(internal_error(&lloc));
                    },
                    other => {
                        let ghost t = other;
                        self.oper_tk.push((lloc, other));
                        proof {
                            assert(tokens_of(self.oper_tk@) =~= tokens_of(ops_k).push(t));
                        }
                    },
                }
            }
        }
        proof {
            if good {
                assert(ts.take(toks.len() as int) =~= ts);
                assert(scan_line(ops0, ids0, ts) == Some((tokens_of(self.oper_tk@), exprs_of(self.idnt_tk@), self.state.in_paren as nat, gs)));
                assert(ts.len() > 0);
                assert(ops0 == tokens_of(old(self).oper_tk@).push(Token::Empty));
                if self.state.in_paren > 0 {
                    assert(parse_line(tokens_of(old(self).oper_tk@), ids0, ts) is None);
                }
            }
        }
        if self.state.in_paren > 0 {
            return Err(CompilerError::new_with_literal(&rloc, "missing right paren"));
        } else if self.state.in_funcall > 0 {
            return Err(CompilerError::new_with_literal(&rloc, "incomplete function call"));
        } else if self.state.in_expr > 0 {
            return Err(CompilerError::new_with_literal(&rloc, "missing identifier"));
        }
        proof {
            if good {
                assert(ts.take(toks.len() as int) =~= ts);
            }
        }
        let inst = self.parse_inst(&rloc)?;
        match inst {
            Inst::Empty => Ok(Expr::Empty),
            Inst::Expr(e) => Ok(e),
            other => Ok(Expr::Inst(Box::new(other))),
        }
    }

    /// Parses the innermost call's name and arguments into a call expression.
    fn parse_funcall(&mut self, fuel: usize, loc: &Loc) -> (r: Result<Expr, CompilerError>)
        ensures
            final(self).ast@ == old(self).ast@,
            old(self).fun_call@.len() == 0 ==> r is Err,
            old(self).fun_call@.len() > 0 && old(self).fun_call@.last()@.len() < 2 ==> r is Err,
            old(self).fun_call@.len() > 0 ==> {
                let g = old(self).fun_call@.last()@;
                let no_args = g.len() == 2 && g[1]@.len() == 0;
                &&& r matches Ok(e) ==> e matches Expr::FunCall(n, a) && g[0]@.len() > 0
                    && g[0]@.last().1 == Token::Var(n) && a@.len() == (if no_args { 0 } else { g.len() - 1 })
                &&& no_args ==> (r is Ok <==> g[0]@.len() > 0 && g[0]@.last().1 is Var)
            },
            ({
                let g = old(self).fun_call@.last()@;
                let ops = tokens_of(old(self).oper_tk@);
                let ids = exprs_of(old(self).idnt_tk@);
                old(self).fun_call@.len() > 0 && g.len() >= 2 && !(g.len() == 2 && g[1]@.len() == 0)
                    && g[0]@.len() > 0 && (g[0]@.last().1 is Var)
                    && old(self).state.in_paren == 0 && old(self).state.in_funcall == 0 && old(self).state.in_expr == 0
                    && (forall|j: int| 1 <= j < g.len() ==> (#[trigger] g[j])@.len() + 1 < fuel
                        && closed_arg(ops, ids, tokens_of(g[j]@)) is Some
                        && (forall|i: int| 0 <= i < g[j]@.len() ==> paren_token(#[trigger] g[j]@[i].1)))
                    ==> (r matches Ok(Expr::FunCall(n, a)) && a@.len() == g.len() - 1
                        && forall|j: int| 0 <= j < a@.len() ==> Some(#[trigger] a@[j]) == closed_arg(ops, ids, tokens_of(g[j + 1]@)))
            }),
        decreases fuel, 1nat,
    {
        let ghost g_in = if old(self).fun_call@.len() > 0 { old(self).fun_call@.last()@ } else { Seq::empty() };
        let ghost ops_in = tokens_of(old(self).oper_tk@);
        let ghost ids_in = exprs_of(old(self).idnt_tk@);
        let ghost good = old(self).fun_call@.len() > 0 && g_in.len() >= 2 && !(g_in.len() == 2 && g_in[1]@.len() == 0)
            && g_in[0]@.len() > 0 && (g_in[0]@.last().1 is Var)
            && old(self).state.in_paren == 0 && old(self).state.in_funcall == 0 && old(self).state.in_expr == 0
            && (forall|j: int| 1 <= j < g_in.len() ==> (#[trigger] g_in[j])@.len() + 1 < fuel
                && closed_arg(ops_in, ids_in, tokens_of(g_in[j]@)) is Some
                && (forall|i: int| 0 <= i < g_in[j]@.len() ==> paren_token(#[trigger] g_in[j]@[i].1)));
        let ghost ast0 = self.ast@;
        let mut group = match self.fun_call.pop() {
            Some(g) => g,
            None => {
                return Err(internal_error(loc));
            },
        };
        if group.len() < 2 {
            return Err(internal_error(loc));
        }
        let name_loc = if group[0].len() > 0 { group[0][0].0 } else { *loc };
        let mut args: Vec<Expr> = Vec::new();
        let last_empty = group[group.len() - 1].len() == 0;
        let ghost g0 = group@;
        proof { assert(g0 == old(self).fun_call@.last()@); }
        if last_empty && group.len() == 2 {
            group.pop();
            proof { assert(group@ =~= g0.take(1)); }
        } else {
            let n = group.len();
            let mut k: usize = 1;
            while k < n
                invariant
                    1 <= k <= n,
                    group@.len() == n + 1 - k,
                    group@ == g0.take(group@.len() as int),
                    g0.len() == n,
                    old(self).fun_call@.len() > 0,
                    g0 == old(self).fun_call@.last()@,
                    !(g0.len() == 2 && g0[1]@.len() == 0),
                    args@.len() == k - 1,
                    self.ast@ == ast0,
                    ast0 == old(self).ast@,
                    g_in == g0,
                    ops_in == tokens_of(old(self).oper_tk@),
                    ids_in == exprs_of(old(self).idnt_tk@),
                    good == (old(self).fun_call@.len() > 0 && g_in.len() >= 2 && !(g_in.len() == 2 && g_in[1]@.len() == 0)
                        && g_in[0]@.len() > 0 && (g_in[0]@.last().1 is Var)
                        && old(self).state.in_paren == 0 && old(self).state.in_funcall == 0 && old(self).state.in_expr == 0
                        && (forall|j: int| 1 <= j < g_in.len() ==> (#[trigger] g_in[j])@.len() + 1 < fuel
                            && closed_arg(ops_in, ids_in, tokens_of(g_in[j]@)) is Some
                            && (forall|i: int| 0 <= i < g_in[j]@.len() ==> paren_token(#[trigger] g_in[j]@[i].1)))),
                    good ==> {
                        &&& tokens_of(self.oper_tk@) == ops_in
                        &&& exprs_of(self.idnt_tk@) == ids_in
                        &&& self.state.in_paren == 0 && self.state.in_funcall == 0 && self.state.in_expr == 0
                        &&& forall|i: int| 0 <= i < args@.len() ==> Some(#[trigger] args@[i]) == closed_arg(ops_in, ids_in, tokens_of(g0[n - 1 - i]@))
                    },
                decreases n - k,
            {
                let ghost gi = (n - k) as int;
                let toks = match group.pop() {
                    Some(t) => t,
                    None => {
                        return Err(internal_error(loc));
                    },
                };
                proof {
                    if good {
                        assert(toks@ == g0[gi]@);
                        assert(1 <= gi < g0.len());
                    }
                }
                self.expr_buf.push((name_loc, toks));
                if fuel == 0 {
                    return Err(internal_error(loc));
                }
                proof {
                    if good {
                        assert(self.expr_buf@.last().1@ == g0[gi]@);
                        assert forall|i: int| 0 <= i < self.expr_buf@.last().1@.len()
                            implies paren_token(#[trigger] self.expr_buf@.last().1@[i].1) by {
                            assert(paren_token(g0[gi]@[i].1));
                        }
                    }
                }
                let ghost a0 = args@;
                let expr = self.parse_expr(fuel - 1)?;
                args.push(expr);
                proof {
                    if good {
                        assert forall|i: int| 0 <= i < args@.len() implies Some(#[trigger] args@[i]) == closed_arg(ops_in, ids_in, tokens_of(g0[n - 1 - i]@)) by {
                            if i < a0.len() {
                                assert(args@[i] == a0[i]);
                            }
                        }
                    }
                }
                k = k + 1;
            }
            let mut ordered: Vec<Expr> = Vec::new();
            let ghost total = args@.len();
            let ghost args0 = args@;
            while args.len() > 0
                invariant
                    ordered@.len() + args@.len() == total,
                    total == args0.len(),
                    args@ == args0.take(args@.len() as int),
                    forall|i: int| 0 <= i < ordered@.len() ==> ordered@[i] == args0[total - 1 - i],
                decreases args@.len(),
            {
                match args.pop() {
                    Some(a) => ordered.push(a),
                    None => {},
                }
                proof { assert(args@ =~= args0.take(args@.len() as int)); }
            }
            proof {
                if good {
                    assert forall|j: int| 0 <= j < ordered@.len() implies Some(#[trigger] ordered@[j]) == closed_arg(ops_in, ids_in, tokens_of(g0[j + 1]@)) by {
                        assert(ordered@[j] == args0[total - 1 - j]);
                        assert(n - 1 - (total - 1 - j) == j + 1);
                    }
                }
            }
            args = ordered;
            proof { assert(group@ =~= g0.take(1)); }
        }
        let mut head = match group.pop() {
            Some(h) => h,
            None => {
                return Err(internal_error(loc));
            },
        };
        match head.pop() {
            Some((_, Token::Var(name))) => Ok(Expr::FunCall(name, args)),
            _ => Err(internal_error(loc)),
        }
    }

    /// Compiles the source into instructions, one per non-empty line; a line with no operand at
    /// all (only empty parentheses) stands for the number 0.
    ///
    /// A variable or a parenthesis right after a number or variable is multiplied with it; a
    /// variable right before a parenthesis is called; a minus where an operand is expected
    /// negates.
    pub fn compile(&mut self) -> (r: Result<Vec<Inst>, CompilerError>)
        requires
            old(self).source().spec_bytes().len() <= u32::MAX,
            old(self).wf(),
        ensures
            final(self).wf(),
            r matches Ok(ast) ==> forall|i: int| 0 <= i < ast@.len() ==> #[trigger] top_level(ast@[i]),
            r is Ok ==> lex_from(old(self).source().spec_bytes(), 0).1 is None,
            old(self).fresh() && lex_from(old(self).source().spec_bytes(), 0).0.len() == 0
                && lex_from(old(self).source().spec_bytes(), 0).1 is None ==> (r matches Ok(a) && a@.len() == 0),
            old(self).fresh() && lex_from(old(self).source().spec_bytes(), 0).1 is None && usize::MAX == u64::MAX
                ==> exists|tk: Seq<(Loc, Token, Loc)>|
                #[trigger] lexed(old(self).source().spec_bytes(), tk, None) && compile_result(tk, r),
    {
        let ghost blank = old(self).fresh() && lex_from(old(self).source().spec_bytes(), 0).0.len() == 0
            && lex_from(old(self).source().spec_bytes(), 0).1 is None;
        let (toks, lex_err) = tokenize(self.source);
        let ghost fr = old(self).fresh();
        let ghost lexok = lex_from(old(self).source().spec_bytes(), 0).1 is None;
        proof {
            if lexok {
                assert(lexed(old(self).source().spec_bytes(), toks@, None));
            }
        }
        let ghost toks0 = toks@;
        let ghost ts = lexed_tokens(toks@);
        let fuel = if toks.len() < (usize::MAX - 2) / 2 { 2 * toks.len() + 2 } else { usize::MAX };
        self.expr_buf.push((origin(), Vec::new()));
        proof {
            if fr {
                assert(tokens_of(self.expr_buf@[0].1@) =~= Seq::<Token>::empty());
                assert(buf_lines(self.expr_buf@) =~= seq![Seq::<Token>::empty()]);
                assert(ts.take(0) =~= Seq::<Token>::empty());
            }
        }
        let ghost pre = *self;
        let mut to_neg_sign = true;
        let mut to_add_mul = false;
        let mut to_make_func = false;
        let mut rest: Vec<(Loc, Token, Loc)> = Vec::new();
        let mut src = toks;
        let ghost ntok = src@.len();
        while src.len() > 0
            invariant
                rest@.len() + src@.len() == ntok,
                lexok == (lex_from(old(self).source().spec_bytes(), 0).1 is None),
                lexok ==> lexed(old(self).source().spec_bytes(), toks0, None),
                ntok == toks0.len(),
                forall|i: int| 0 <= i < src@.len() ==> src@[i] == toks0[i],
                forall|i: int| 0 <= i < rest@.len() ==> rest@[i] == toks0[toks0.len() - 1 - i],
            ensures
                src@.len() == 0,
            decreases src@.len(),
        {
            match src.pop() {
                Some(t) => rest.push(t),
                None => {},
            }
        }
        proof {
            if blank {
                assert(rest@.len() == 0);
                assert(lex_err is None);
            }
        }
        while rest.len() > 0
            invariant
                self.wf(),
                blank == (old(self).fresh() && lex_from(old(self).source().spec_bytes(), 0).0.len() == 0
                    && lex_from(old(self).source().spec_bytes(), 0).1 is None),
                blank ==> rest@.len() == 0 && lex_err is None && self.expr_buf@.len() == 1
                    && self.expr_buf@[0].1@.len() == 0 && self.idnt_tk@.len() == 0 && self.ast@.len() == 0,
                rest@.len() <= toks0.len(),
                forall|i: int| 0 <= i < rest@.len() ==> rest@[i] == toks0[toks0.len() - 1 - i],
                ts == lexed_tokens(toks0),
                fr == old(self).fresh(),
                lexok == (lex_from(old(self).source().spec_bytes(), 0).1 is None),
                lexok ==> lexed(old(self).source().spec_bytes(), toks0, None),
                self.ast == pre.ast && self.idnt_tk == pre.idnt_tk && self.oper_tk == pre.oper_tk
                    && self.fun_call == pre.fun_call && self.state == pre.state && self.source == pre.source,
                fr ==> prep(ts.take(toks0.len() - rest@.len())) == Some((buf_lines(self.expr_buf@), to_neg_sign, to_add_mul, to_make_func)),
                fr ==> forall|i: int| 0 <= i < self.expr_buf@.len() ==> #[trigger] self.expr_buf@[i].1@.len() <= 2 * (toks0.len() - rest@.len()),
            ensures
                rest@.len() == 0,
            decreases rest@.len(),
        {
            let ghost k = toks0.len() - rest@.len();
            let ghost st_k = (buf_lines(self.expr_buf@), to_neg_sign, to_add_mul, to_make_func);
            let ghost b0 = self.expr_buf@;
            let (lloc, token, _rloc) = match rest.pop() {
                Some(x) => x,
                None => { break; },
            };
            let ghost tk = token;
            proof {
                assert(toks0[k] == (lloc, token, _rloc));
                assert(ts[k] == tk);
                lemma_prep_step(ts, k);
            }
            let mut to_push_token = true;
            match token {
                Token::Empty => {
                    proof { if fr { lemma_prep_prefix_none(ts, k + 1); } }
                    return Err(internal_error(&lloc));
                },
                Token::Newline => {
                    to_add_mul = false;
                    to_make_func = false;
                    to_neg_sign = false;
                    to_push_token = false;
                    self.expr_buf.push((lloc, Vec::new()));
                    proof {
                        assert(tokens_of(self.expr_buf@.last().1@) =~= Seq::<Token>::empty());
                        assert(buf_lines(self.expr_buf@) =~= buf_lines(b0).push(Seq::<Token>::empty()));
                    }
                },
                Token::Comma | Token::Eq | Token::Plus | Token::Minus | Token::Star | Token::Slash | Token::Mod => {
                    to_add_mul = false;
                    to_make_func = false;
                    let is_minus = match token {
                        Token::Minus => true,
                        _ => false,
                    };
                    if is_minus && to_neg_sign {
                        to_neg_sign = false;
                        to_push_token = false;
                        push_to_last(&mut self.expr_buf, (lloc, Token::NegSign));
                        proof { lemma_push_last(b0, self.expr_buf@, (lloc, Token::NegSign)); }
                    } else {
                        to_neg_sign = true;
                    }
                },
                Token::Number(_) => {
                    to_make_func = false;
                    to_neg_sign = false;
                    if to_add_mul {
                        proof { if fr { lemma_prep_prefix_none(ts, k + 1); } }
                        return Err(CompilerError::new_with_literal(
                            &lloc,
                            "consecutive number literals or numbers behind variable are not acceptable",
                        ));
                    } else {
                        to_add_mul = true;
                    }
                },
                Token::Var(_) => {
                    to_neg_sign = false;
                    to_make_func = true;
                    if to_add_mul {
                        push_to_last(&mut self.expr_buf, (lloc, Token::Star));
                        proof { lemma_push_last(b0, self.expr_buf@, (lloc, Token::Star)); }
                    } else {
                        to_add_mul = true;
                    }
                },
                Token::LParen => {
                    to_neg_sign = false;
                    if to_make_func {
                        to_make_func = false;
                        let (line_loc, mut line) = match self.expr_buf.pop() {
                            Some(x) => x,
                            None => {
                                return Err(internal_error(&lloc));
                            },
                        };
                        let ghost l0 = line@;
                        match line.pop() {
                            Some((loc, Token::Var(name))) => {
                                to_push_token = false;
                                proof {
                                    assert(tokens_of(l0).last() == Token::Var(name));
                                    assert(tokens_of(line@) =~= tokens_of(l0).drop_last());
                                }
                                let ghost nm = name;
                                line.push((loc, Token::FunCall(name)));
                                proof {
                                    assert(tokens_of(line@) =~= tokens_of(l0).drop_last().push(Token::FunCall(nm)));
                                }
                            },
                            _ => {
                                return Err(internal_error(&lloc));
                            },
                        }
                        self.expr_buf.push((line_loc, line));
                        proof {
                            assert(buf_lines(b0).last() == tokens_of(l0));
                            assert(buf_lines(self.expr_buf@) =~= buf_lines(b0).drop_last().push(tokens_of(line@)));
                        }
                    } else if to_add_mul {
                        push_to_last(&mut self.expr_buf, (lloc, Token::Star));
                        proof { lemma_push_last(b0, self.expr_buf@, (lloc, Token::Star)); }
                    }
                    to_add_mul = false;
                },
                _ => {
                    to_add_mul = false;
                    to_make_func = false;
                    to_neg_sign = false;
                },
            }
            let ghost bm = self.expr_buf@;
            if to_push_token {
                push_to_last(&mut self.expr_buf, (lloc, token));
                proof { lemma_push_last(bm, self.expr_buf@, (lloc, tk)); }
            }
            proof {
                if fr {
                    assert(prep(ts.take(k + 1)) == Some((buf_lines(self.expr_buf@), to_neg_sign, to_add_mul, to_make_func)));
                }
            }
        }
        match lex_err {
            Some(e) => {
                return Err(CompilerError::new_with_literal(&e.loc, "invalid token"));
            },
            None => {},
        }
        proof {
            if fr {
                assert(ts.take(toks0.len() as int) =~= ts);
            }
        }
        let ghost good = fr && prep(ts) is Some && call_free((prep(ts)->0).0) && usize::MAX == u64::MAX;
        proof {
            lemma_lex_count(old(self).source().spec_bytes(), 0);
        }
        let ghost lns = if prep(ts) is Some { (prep(ts)->0).0 } else { Seq::<Seq<Token>>::empty() };
        let ghost eb0 = self.expr_buf@;
        let ghost pre2 = *self;
        proof {
            if good {
                assert(buf_lines(eb0) == lns);
            }
        }
        let mut lines: Vec<(Loc, Vec<(Loc, Token)>)> = Vec::new();
        while self.expr_buf.len() > 0
            invariant
                self.expr_buf@ == eb0.take(self.expr_buf@.len() as int),
                lexok == (lex_from(old(self).source().spec_bytes(), 0).1 is None),
                lexok ==> lexed(old(self).source().spec_bytes(), toks0, None),
                self.expr_buf@.len() + lines@.len() == eb0.len(),
                forall|i: int| 0 <= i < lines@.len() ==> lines@[i] == eb0[eb0.len() - 1 - i],
                self.ast == pre2.ast && self.idnt_tk == pre2.idnt_tk && self.oper_tk == pre2.oper_tk
                    && self.fun_call == pre2.fun_call && self.state == pre2.state && self.source == pre2.source,
                self.wf(),
                blank == (old(self).fresh() && lex_from(old(self).source().spec_bytes(), 0).0.len() == 0
                    && lex_from(old(self).source().spec_bytes(), 0).1 is None),
                blank ==> self.expr_buf@.len() + lines@.len() == 1 && self.idnt_tk@.len() == 0 && self.ast@.len() == 0
                    && (forall|j: int| 0 <= j < self.expr_buf@.len() ==> (#[trigger] self.expr_buf@[j]).1@.len() == 0)
                    && (forall|j: int| 0 <= j < lines@.len() ==> (#[trigger] lines@[j]).1@.len() == 0),
            decreases self.expr_buf@.len(),
        {
            let ghost e1 = self.expr_buf@;
            match self.expr_buf.pop() {
                Some(l) => lines.push(l),
                None => {},
            }
            proof {
                assert(self.expr_buf@ =~= eb0.take(self.expr_buf@.len() as int));
            }
        }
        self.expr_buf = lines;
        let count = self.expr_buf.len();
        proof {
            if good {
                assert(lns.take(0) =~= Seq::<Seq<Token>>::empty());
                assert(tokens_of(self.oper_tk@) =~= Seq::<Token>::empty());
                assert(exprs_of(self.idnt_tk@) =~= Seq::<Expr>::empty());
                assert(self.ast@ =~= Seq::<Inst>::empty());
            }
        }
        let mut k: usize = 0;
        while k < count
            invariant
                self.wf(),
                k <= count,
                blank == (old(self).fresh() && lex_from(old(self).source().spec_bytes(), 0).0.len() == 0
                    && lex_from(old(self).source().spec_bytes(), 0).1 is None),
                blank ==> count == 1 && self.idnt_tk@.len() == 0 && self.ast@.len() == 0
                    && (k == 0 ==> self.expr_buf@.len() == 1 && self.expr_buf@[0].1@.len() == 0),
                count == eb0.len(),
                fr == old(self).fresh(),
                fr ==> prep(lexed_tokens(toks0)) is Some,
                good == (fr && prep(lexed_tokens(toks0)) is Some && call_free((prep(lexed_tokens(toks0))->0).0) && usize::MAX == u64::MAX),
                good ==> lns == (prep(lexed_tokens(toks0))->0).0,
                lexok == (lex_from(old(self).source().spec_bytes(), 0).1 is None),
                lexok ==> lexed(old(self).source().spec_bytes(), toks0, None),
                good ==> fuel > 2 * toks0.len(),
                good ==> {
                    &&& buf_lines(eb0) == lns
                    &&& call_free(lns)
                    &&& self.expr_buf@.len() == count - k
                    &&& forall|i: int| 0 <= i < count - k ==> self.expr_buf@[i] == eb0[count - 1 - i]
                    &&& prog_state(lns, k as int, self.ast@, tokens_of(self.oper_tk@), exprs_of(self.idnt_tk@))
                    &&& forall|i: int| 0 <= i < eb0.len() ==> #[trigger] eb0[i].1@.len() <= 2 * toks0.len()
                    &&& self.state.in_paren == 0 && self.state.in_funcall == 0 && self.state.in_expr == 0
                },
            decreases count - k,
        {
            let ghost g = prog_lines(lns.take(k as int))->0;
            let ghost l = lns[k as int];
            proof {
                if good {
                    assert(self.expr_buf@.last() == eb0[k as int]);
                    assert(buf_lines(eb0)[k as int] == tokens_of(eb0[k as int].1@));
                    assert(lns.take(k + 1).drop_last() =~= lns.take(k as int));
                    assert(lns.take(k + 1).last() == l);
                    assert(tokens_of(self.expr_buf@.last().1@) =~= l);
                    assert forall|j: int| 0 <= j < self.expr_buf@.last().1@.len() implies paren_token(#[trigger] self.expr_buf@.last().1@[j].1) by {
                        assert(tokens_of(self.expr_buf@.last().1@)[j] == l[j]);
                        assert(paren_token(lns[k as int][j]));
                    }
                    assert(eb0[k as int].1@.len() <= 2 * toks0.len());
                }
            }
            let ghost s0 = *self;
            let nonempty = self.expr_buf.len() > 0 && self.expr_buf[self.expr_buf.len() - 1].1.len() > 0;
            let expr = match self.parse_expr(fuel) {
                Ok(e) => e,
                Err(e) => {
                    proof {
                        if good {
                            lemma_prog_prefix_none(lns, k + 1);
                        }
                    }
                    return Err(e);
                },
            };
            match expr {
                Expr::Empty => {
                    if nonempty {
                        let ghost a0 = self.ast@;
                        let z = String::from_str("0");
                        let ghost zi = Inst::Expr(Expr::Number(z));
                        self.ast.push(Inst::Expr(Expr::Number(z)));
                        proof {
                            if good {
                                lemma_matches_push(a0, g.0, zi, None);
                            }
                        }
                    }
                },
                Expr::Inst(inst) => {
                    let i = *inst;
                    match i {
                        Inst::Empty => {
                            proof { if good { lemma_prog_prefix_none(lns, k + 1); } }
                            return Err(internal_error(&origin()));
                        },
                        Inst::Expr(Expr::Empty) => {
                            proof { if good { lemma_prog_prefix_none(lns, k + 1); } }
                            return Err(internal_error(&origin()));
                        },
                        other => {
                            let ghost a0 = self.ast@;
                            let ghost oi = other;
                            self.ast.push(other);
                            proof {
                                if good {
                                    lemma_matches_push(a0, g.0, oi, Some(oi));
                                }
                            }
                        },
                    }
                },
                other => {
                    let ghost a0 = self.ast@;
                    let ghost oi = Inst::Expr(other);
                    self.ast.push(Inst::Expr(other));
                    proof {
                        if good {
                            lemma_matches_push(a0, g.0, oi, Some(oi));
                        }
                    }
                },
            }
            k = k + 1;
        }
        proof {
            if good {
                assert(lns.take(count as int) =~= lns);
            }
        }
        if self.idnt_tk.len() > 0 {
            let loc = self.idnt_tk[0].0;
            return Err(CompilerError::new_with_literal(&loc, "redundant identifier or expression (missing operator)"));
        }
        let mut ast: Vec<Inst> = Vec::new();
        core::mem::swap(&mut ast, &mut self.ast);
        proof {
            if good {
                assert(lns.take(count as int) =~= lns);
            }
        }
        Ok(ast)
    }
}

} // verus!
