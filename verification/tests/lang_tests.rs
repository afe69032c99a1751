use math_lang::comiler::{Compiler, Expr, Inst};
use math_lang::lexer::{tokenize, Token};
use math_lang::scope::{copy_expr, copy_inst, copy_insts};

const BASIC: &str = "ans = ((1 * 2 + 3) * 4) + 5 * 6 + 7\nans = (ans + 8) * (9 + 10)\n\nans";
const COSINE_LAW: &str =
    "a = 7\nb = 7\nc = 7\n\ncosRad = (a^2 + b^2 - c^2) / (2 a b)\ndeg = acos(cosRad) / pi * 180\n\ndeg";

fn tokens(source: &str) -> Vec<Token> {
    let (toks, err) = tokenize(source);
    assert!(err.is_none());
    toks.into_iter().map(|t| t.1).collect()
}

fn v(s: &str) -> Token {
    Token::Var(s.to_string())
}

fn n(s: &str) -> Token {
    Token::Number(s.to_string())
}

fn ev(s: &str) -> Expr {
    Expr::Var(s.to_string())
}

fn en(s: &str) -> Expr {
    Expr::Number(s.to_string())
}

fn ei(i: Inst) -> Expr {
    Expr::Inst(Box::new(i))
}

fn compile(source: &str) -> Vec<Inst> {
    let mut compiler = Compiler::new(source);
    compiler.compile().unwrap()
}

#[test]
fn simple_digit() {
    let correct = vec![n("1"), n("1.2"), n("1e2"), n("1.2e2"), n("1.2e-2")];
    assert_eq!(tokens("1 1.2 1e2 1.2e2 1.2e-2"), correct);
}

#[test]
fn lexer_basic() {
    let correct = vec![
        v("ans"),
        Token::Eq,
        Token::LParen,
        Token::LParen,
        n("1"),
        Token::Star,
        n("2"),
        Token::Plus,
        n("3"),
        Token::RParen,
        Token::Star,
        n("4"),
        Token::RParen,
        Token::Plus,
        n("5"),
        Token::Star,
        n("6"),
        Token::Plus,
        n("7"),
        Token::Newline,
        v("ans"),
        Token::Eq,
        Token::LParen,
        v("ans"),
        Token::Plus,
        n("8"),
        Token::RParen,
        Token::Star,
        Token::LParen,
        n("9"),
        Token::Plus,
        n("10"),
        Token::RParen,
        Token::Newline,
        Token::Newline,
        v("ans"),
    ];
    assert_eq!(tokens(BASIC), correct, "example basic test failed.");
}

#[test]
fn lexer_cosine_law() {
    let correct = vec![
        v("a"),
        Token::Eq,
        n("7"),
        Token::Newline,
        v("b"),
        Token::Eq,
        n("7"),
        Token::Newline,
        v("c"),
        Token::Eq,
        n("7"),
        Token::Newline,
        Token::Newline,
        v("cosRad"),
        Token::Eq,
        Token::LParen,
        v("a"),
        Token::Pow,
        n("2"),
        Token::Plus,
        v("b"),
        Token::Pow,
        n("2"),
        Token::Minus,
        v("c"),
        Token::Pow,
        n("2"),
        Token::RParen,
        Token::Slash,
        Token::LParen,
        n("2"),
        v("a"),
        v("b"),
        Token::RParen,
        Token::Newline,
        v("deg"),
        Token::Eq,
        v("acos"),
        Token::LParen,
        v("cosRad"),
        Token::RParen,
        Token::Slash,
        v("pi"),
        Token::Star,
        n("180"),
        Token::Newline,
        Token::Newline,
        v("deg"),
    ];
    assert_eq!(tokens(COSINE_LAW), correct, "example cosine-law test failed.");
}

#[test]
fn lexer_keeps_locations_and_reports_stray_bytes() {
    let (toks, err) = tokenize("x\n  mod ?");
    assert_eq!(toks.len(), 3);
    assert_eq!(toks[2].1, Token::Mod);
    assert_eq!((toks[2].0.line, toks[2].0.col, toks[2].0.byte_idx), (1, 2, 4));
    assert_eq!((toks[2].2.line, toks[2].2.col), (1, 5));
    let e = err.unwrap();
    assert_eq!((e.loc.line, e.loc.col, e.loc.byte_idx), (1, 6, 8));
}

#[test]
fn lexer_longest_match() {
    assert_eq!(tokens("modulo mod"), vec![v("modulo"), Token::Mod]);
    assert_eq!(tokens("1e+x"), vec![n("1"), v("e"), Token::Plus, v("x")]);
    assert_eq!(tokens("2.5e-1"), vec![n("2.5e-1")]);
}

#[test]
fn comiler_simple_expr_1() {
    let correct = vec![Inst::Assign(ev("i"), ei(Inst::Add(ev("i"), en("1"))))];
    assert_eq!(compile("i = i + 1"), correct);
}

#[test]
fn comiler_simple_expr_2() {
    let correct = vec![Inst::Assign(
        ev("i"),
        ei(Inst::Sub(
            ei(Inst::Add(ev("i"), ei(Inst::Mul(en("1"), ev("b"))))),
            en("1"),
        )),
    )];
    assert_eq!(compile("i = i + 1 * b - 1"), correct);
}

#[test]
fn comiler_simple_expr_3() {
    let correct = vec![Inst::Assign(
        ev("i"),
        ei(Inst::Add(
            ei(Inst::Div(
                ei(Inst::Mul(
                    ei(Inst::Mul(ev("i"), ei(Inst::Add(en("1"), en("2"))))),
                    en("3"),
                )),
                ei(Inst::Pow(ev("b"), en("5"))),
            )),
            ei(Inst::Pow(en("4"), ei(Inst::Add(ev("a"), en("3"))))),
        )),
    )];
    assert_eq!(compile("i = i * (1 + 2) * 3 / b^5 + 4^(a + 3)"), correct);
}

#[test]
fn comiler_basic() {
    let correct = vec![
        Inst::Assign(
            ev("ans"),
            ei(Inst::Add(
                ei(Inst::Add(
                    ei(Inst::Mul(
                        ei(Inst::Add(ei(Inst::Mul(en("1"), en("2"))), en("3"))),
                        en("4"),
                    )),
                    ei(Inst::Mul(en("5"), en("6"))),
                )),
                en("7"),
            )),
        ),
        Inst::Assign(
            ev("ans"),
            ei(Inst::Mul(
                ei(Inst::Add(ev("ans"), en("8"))),
                ei(Inst::Add(en("9"), en("10"))),
            )),
        ),
        Inst::Expr(ev("ans")),
    ];
    assert_eq!(compile(BASIC), correct);
}

#[test]
fn comiler_cosine_law() {
    let correct = vec![
        Inst::Assign(ev("a"), en("7")),
        Inst::Assign(ev("b"), en("7")),
        Inst::Assign(ev("c"), en("7")),
        Inst::Assign(
            ev("cosRad"),
            ei(Inst::Div(
                ei(Inst::Sub(
                    ei(Inst::Add(
                        ei(Inst::Pow(ev("a"), en("2"))),
                        ei(Inst::Pow(ev("b"), en("2"))),
                    )),
                    ei(Inst::Pow(ev("c"), en("2"))),
                )),
                ei(Inst::Mul(ei(Inst::Mul(en("2"), ev("a"))), ev("b"))),
            )),
        ),
        Inst::Assign(
            ev("deg"),
            ei(Inst::Mul(
                ei(Inst::Div(
                    Expr::FunCall("acos".to_string(), vec![ev("cosRad")]),
                    ev("pi"),
                )),
                en("180"),
            )),
        ),
        Inst::Expr(ev("deg")),
    ];
    assert_eq!(compile(COSINE_LAW), correct);
}

#[test]
fn comiler_function_calls_take_every_argument() {
    let correct = vec![Inst::Expr(Expr::FunCall(
        "f".to_string(),
        vec![en("1"), ei(Inst::Add(ev("x"), en("2")))],
    ))];
    assert_eq!(compile("f(1, x + 2)"), correct);
    let empty = vec![Inst::Expr(Expr::FunCall("g".to_string(), vec![]))];
    assert_eq!(compile("g()"), empty);
}

#[test]
fn comiler_reports_unbalanced_parentheses() {
    let mut compiler = Compiler::new("(1 + 2");
    assert!(compiler.compile().is_err());
    let mut compiler = Compiler::new("1 + 2)");
    assert!(compiler.compile().is_err());
}

#[test]
fn copies_of_instructions_are_equal() {
    let program = compile("f(x, y) = x * (y + 1)\nr = f(2, 3) ^ 2 mod 5");
    let copied = copy_insts(&program);
    assert_eq!(copied, program);
    for inst in program.iter() {
        assert_eq!(copy_inst(inst), *inst);
    }
    let call = Expr::FunCall("g".to_string(), vec![Expr::Number("1".to_string()), Expr::Var("a".to_string())]);
    assert_eq!(copy_expr(&call), call);
}

#[test]
fn lexing_errors_fail_compilation() {
    let mut compiler = Compiler::new("a = 1 @ 2");
    let err = compiler.compile().unwrap_err();
    assert_eq!(err.msg, "invalid token");
    assert_eq!((err.line, err.col), (0, 6));
}
