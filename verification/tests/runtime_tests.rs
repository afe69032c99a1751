use math_lang::big_num::num::BigNum;
use math_lang::runtime::{FloatMath, ModSystem, Runtime};
use math_lang::var::{Var, VarType};

const BASIC: &str = "ans = ((1 * 2 + 3) * 4) + 5 * 6 + 7\nans = (ans + 8) * (9 + 10)\n\nans";
const COSINE_LAW: &str =
    "a = 7\nb = 7\nc = 7\n\ncosRad = (a^2 + b^2 - c^2) / (2 a b)\ndeg = acos(cosRad) / pi * 180\n\ndeg";

fn num_to_f64(n: &BigNum) -> f64 {
    if n.is_nan() {
        return f64::NAN;
    }
    let sign = if n.sign_bit() == 1 { -1.0 } else { 1.0 };
    if n.infinity() != 0 {
        return if n.infinity() > 0 { f64::INFINITY } else { f64::NEG_INFINITY };
    }
    let words = n.coefficient().into_bits().0;
    let mut v = 0.0f64;
    for w in words.iter().rev() {
        v = v * 18446744073709551616.0 + (*w as f64);
    }
    sign * v / 2f64.powi(n.exponent() as i32)
}

fn f64_to_num(value: f64) -> BigNum {
    let negative = value.signum() < 0.0;
    if value.is_infinite() {
        let mut r = BigNum::inf();
        r.set_sign(if negative { 1 } else { 0 });
        return r;
    }
    if value.is_nan() {
        return BigNum::nan();
    }
    let v = value.abs();
    let int = v.trunc() as u128;
    let dec = (v.fract() * 10f64.powi(19)).trunc() as u64;
    BigNum::from_float_parts(negative, int, dec, 19)
}

fn var_to_f64(x: &Var) -> f64 {
    match x.get_type() {
        VarType::I32 => x.as_i32() as f64,
        VarType::I64 => x.as_i64() as f64,
        _ => num_to_f64(&x.as_num()),
    }
}

fn f64_var(v: f64) -> Var {
    Var::from_num(&f64_to_num(v))
}

struct Host;

impl FloatMath for Host {
    fn math(&self, name: &String, x: &Var) -> Result<Var, String> {
        let v = var_to_f64(x);
        let r = match name.as_str() {
            "sin" => v.sin(),
            "cos" => v.cos(),
            "tan" => v.tan(),
            "asin" => v.asin(),
            "acos" => v.acos(),
            "atan" => v.atan(),
            "abs" => v.abs(),
            "sqrt" => v.sqrt(),
            "ceil" => v.ceil(),
            "floor" => v.floor(),
            "round" => v.round(),
            "exp" => v.exp(),
            "log" => v.log(10.0),
            "log2" => v.log2(),
            "ln" => v.ln(),
            "trunc" => v.trunc(),
            "cbrt" => v.cbrt(),
            "sign" => {
                let s = match v.total_cmp(&0.0) {
                    std::cmp::Ordering::Equal => 0,
                    std::cmp::Ordering::Greater => 1,
                    std::cmp::Ordering::Less => -1,
                };
                return Ok(Var::from_i32(s));
            },
            _ => {
                let t = v.trunc();
                let xi = v as i32;
                if t == f64::from(xi) {
                    return Ok(Var::from_i32(xi));
                }
                return Err(format!("cannot convert {} to I32", v));
            },
        };
        Ok(f64_var(r))
    }

    fn powf(&self, base: &Var, exp: &Var) -> Var {
        f64_var(var_to_f64(base).powf(var_to_f64(exp)))
    }
}

struct Files(Vec<(String, String)>);

impl ModSystem for Files {
    fn read(&self, path: &String) -> Result<String, ()> {
        for (p, text) in self.0.iter() {
            if p == path {
                return Ok(text.clone());
            }
        }
        Err(())
    }
}

fn lines(v: &[&str]) -> Vec<String> {
    v.iter().map(|s| s.to_string()).collect()
}

#[test]
fn inst_mod_1() {
    let mut runtime = Runtime::new(Host, Files(vec![]));
    runtime.execute("10 mod 2").unwrap();
    runtime.execute("10 mod 3").unwrap();
    runtime.execute("10 mod -3").unwrap();
    runtime.execute("-10 mod -3").unwrap();
    runtime.execute("-10 mod 3").unwrap();
    assert_eq!(runtime.output(), &lines(&["0", "1", "1", "2", "2"]));
}

#[test]
fn inst_mod_2() {
    let mut runtime = Runtime::new(Host, Files(vec![]));
    runtime.execute("ans = ((1 * 2 + 3) * 4) + 5 * 6 + 7 mod 2").unwrap();
    runtime.execute("ans = (1 mod 3) + (2 mod 3) mod 3").unwrap();
    assert_eq!(runtime.output(), &lines(&["1", "0"]));
}

#[test]
fn simple_one_plus_one() {
    let mut runtime = Runtime::new(Host, Files(vec![]));
    let output = runtime.execute("1 + 1").unwrap();
    assert_eq!(output, vec!["2".to_owned()]);
}

#[test]
fn runtime_simple_expr_1() {
    let mut runtime = Runtime::new(Host, Files(vec![]));
    runtime.execute("i = 1").unwrap();
    let output = runtime.execute("i = i + 1").unwrap();
    assert_eq!(output, lines(&["1", "2"]));
}

#[test]
fn runtime_simple_expr_2() {
    let mut runtime = Runtime::new(Host, Files(vec![]));
    runtime.execute("i = 1").unwrap();
    runtime.execute("b = 2").unwrap();
    let output = runtime.execute("i = i + 1 * b - 1").unwrap();
    assert_eq!(output, lines(&["1", "2", "2"]));
}

#[test]
fn runtime_simple_expr_3() {
    let mut runtime = Runtime::new(Host, Files(vec![]));
    runtime.execute("i = 1").unwrap();
    runtime.execute("a = 2").unwrap();
    runtime.execute("b = 3").unwrap();
    let output = runtime.execute("i = i * (1 + 2) * 3 / b^5 + 4^(a + 3)").unwrap();
    assert_eq!(output, lines(&["1", "2", "3", "1024.0370370"]));
}

#[test]
fn runtime_basic() {
    let mut runtime = Runtime::new(Host, Files(vec![]));
    let output = runtime.execute(BASIC).unwrap();
    assert_eq!(output, lines(&["57", "1235", "1235"]));
}

#[test]
fn runtime_cosine_law() {
    let mut runtime = Runtime::new(Host, Files(vec![]));
    let output = runtime.execute(COSINE_LAW).unwrap();
    assert_eq!(output, lines(&["7", "7", "7", "0.5000000", "60.0000000", "60.0000000"]));
}

#[test]
fn bug_2() {
    let mut runtime = Runtime::new(Host, Files(vec![]));
    runtime.execute("sum(a, b) = a + b").unwrap();
    runtime.execute("sin(sum(1, -1))").unwrap();
    assert_eq!(runtime.output(), &lines(&["0.0000000"]));
}

#[test]
fn bug_1() {
    let mut runtime = Runtime::new(Host, Files(vec![]));
    runtime.execute("()()").unwrap();
    assert_eq!(runtime.output(), &lines(&["0"]));
}

#[test]
fn empty_parentheses_add_no_operand() {
    let mut runtime = Runtime::new(Host, Files(vec![]));
    assert_eq!(runtime.execute("(())").unwrap(), lines(&["0"]));
    assert!(runtime.execute("() + 2").is_err());
    assert_eq!(runtime.output(), &lines(&["0"]));
}

#[test]
fn fib() {
    let source = "fib(n) = if(n - 1) + if(n - 2) + else(n - 1) * else(n - 2) * (fib(n - 1) + fib(n - 2))\n\
                  fib(1)\nfib(2)\nfib(3)\nfib(4)\nfib(5)\nfib(10)";
    let mut runtime = Runtime::new(Host, Files(vec![]));
    let output = runtime.execute(source).unwrap();
    assert_eq!(output, lines(&["1", "1", "2", "3", "5", "55"]));
}

#[test]
fn index_base_is_a_setting() {
    let mut runtime = Runtime::new(Host, Files(vec![]));
    assert_eq!(runtime.execute("__index_base__(1)").unwrap(), lines(&["1"]));
    assert_eq!(runtime.env().index_base, 1);
    assert_eq!(
        re_msg(runtime.execute("__index_base__(2)")),
        "env(INDEX_BASE) must less than 1"
    );
    assert_eq!(runtime.env().index_base, 1);
}

#[test]
fn import_source_takes_what_was_read() {
    let mut runtime = Runtime::new(Host, Files(vec![]));
    let err = runtime.import_source(&"m".to_string(), Err(()), Some(3)).unwrap_err();
    assert_eq!(err.line, 3);
    assert_eq!(err.msg, "module m does not exist");
    assert_eq!(runtime.output().len(), 0);
}

#[test]
fn runtime_errors_leave_the_global_scope_innermost() {
    let mut runtime = Runtime::new(Host, Files(vec![]));
    runtime.execute("f(x) = g(x)").unwrap();
    assert_eq!(re_msg(runtime.execute("f(1)")), "g() is an undefined function (could be variable)");
    assert_eq!(re_msg(runtime.execute("f(1, 2)")), "function f() expect 1 arguments got 2");
    runtime.execute("y = 5").unwrap();
    assert_eq!(runtime.execute("y").unwrap().last().unwrap(), "5");
}

#[test]
fn functions_recurse_and_hide_their_frames() {
    let mut runtime = Runtime::new(Host, Files(vec![]));
    runtime.execute("fact(n) = if(n) * 1 + else(n) * n * fact(n - 1)").unwrap();
    let out = runtime.execute("fact(10)").unwrap();
    assert_eq!(out, lines(&["3628800"]));
}

#[test]
fn calls_deeper_than_the_limit_are_refused() {
    let mut runtime = Runtime::new(Host, Files(vec![]));
    runtime.execute("down(n) = down(n - 1)").unwrap();
    let err = runtime.execute("down(1)").unwrap_err();
    match err {
        math_lang::error::GlobalError::RE(e) => assert_eq!(e.msg, "reached maximum stack depth 512"),
        _ => panic!("expected a runtime error"),
    }
    // the stack is back at the global scope
    assert_eq!(runtime.execute("x = 3").unwrap(), lines(&["3"]));
}

#[test]
fn integer_overflow_widens() {
    let mut runtime = Runtime::new(Host, Files(vec![]));
    runtime.execute("2147483647 + 1\n9223372036854775807 + 1").unwrap();
    let out = runtime.execute("-2147483648 * -1").unwrap();
    assert_eq!(out, lines(&["2147483648", "9223372036854775808.0000000", "2147483648"]));
    // a minus at the start of a later line is read as a binary operator
    assert!(runtime.execute("1\n-1").is_err());
}

#[test]
fn runtime_errors_name_the_problem() {
    let mut runtime = Runtime::new(Host, Files(vec![]));
    let msg = |r: Result<Vec<String>, math_lang::error::GlobalError>| match r {
        Err(math_lang::error::GlobalError::RE(e)) => e.msg,
        _ => String::new(),
    };
    assert_eq!(msg(runtime.execute("y + 1")), "y is undefined variable");
    assert_eq!(msg(runtime.execute("g(1)")), "g() is an undefined function (could be variable)");
    assert_eq!(msg(runtime.execute("sin(1, 2)")), "function sin() expect 1 arguments got 2");
    assert_eq!(msg(runtime.execute("pi = 3")), "overriding builtin constant pi");
    assert_eq!(msg(runtime.execute("1 = 3")), "cannot assign value to numbers");
    assert_eq!(msg(runtime.execute("__precision__(16)")), "env(PRECISION) must less than 15");
    assert_eq!(msg(runtime.execute("__precision__(0 - 1)")), "cannot config PRECISION with negative number or large number");
}

#[test]
fn settings_change_what_is_printed() {
    let mut runtime = Runtime::new(Host, Files(vec![]));
    runtime.execute("__print_set_inst__(0)").unwrap();
    runtime.execute("__precision__(2)").unwrap();
    let out = runtime.execute("x = 1 / 3\nx").unwrap();
    assert_eq!(out, lines(&["0", "2", "0.33"]));
    assert_eq!(runtime.env().precision, 2);
}

#[test]
fn print_builds_lines() {
    let mut runtime = Runtime::new(Host, Files(vec![]));
    let out = runtime.execute("print(1)\nprint(2)\nprintln(3)\nprint(4)").unwrap();
    assert_eq!(out, lines(&["123", "4"]));
}

#[test]
fn sequences_are_shown_and_measured() {
    let mut runtime = Runtime::new(Host, Files(vec![]));
    let out = runtime.execute("s = Sequence(3)\nlen(s)\nprintln(s)").unwrap();
    assert_eq!(
        out,
        lines(&[
            "<Sequence of Scope 0 with length 3 at 0x0000000000000000>",
            "3",
            "[0, 0, 0]"
        ])
    );
}

#[test]
fn powers_of_integers_and_reals() {
    let mut runtime = Runtime::new(Host, Files(vec![]));
    let out = runtime.execute("2^10\n2^(0 - 1)\n4^0.5").unwrap();
    assert_eq!(out, lines(&["1024", "2", "2.0000000"]));
}

#[test]
fn assert_builtins_compare_values() {
    let mut runtime = Runtime::new(Host, Files(vec![]));
    runtime.execute("m = print(0)").unwrap();
    assert!(runtime.execute("assert_eq(1, 1, m)").is_ok());
    match runtime.execute("assert_ne(2, 2, m)") {
        Err(math_lang::error::GlobalError::RE(e)) => assert_eq!(e.msg, "assert_ne(\"lhs, rhs, \")"),
        _ => panic!("expected a runtime error"),
    }
}


fn module_runtime() -> Runtime<Host, Files> {
    let files = Files(vec![
        (
            "lib/<defined function geo>.mls".to_string(),
            "half(x) = x / 2\nsquare(x) = x * x\nk = 7\nk + 1".to_string(),
        ),
        ("lib/<defined function bad>.mls".to_string(), "q = undefined_thing".to_string()),
    ]);
    let mut runtime = Runtime::new(Host, files);
    runtime.set_work_path("lib".to_string());
    runtime
}

fn re_msg(r: Result<Vec<String>, math_lang::error::GlobalError>) -> String {
    match r {
        Err(math_lang::error::GlobalError::RE(e)) => e.msg,
        _ => String::new(),
    }
}

#[test]
fn import_brings_functions_and_variables() {
    let mut runtime = module_runtime();
    runtime.execute("__detail_depth__(1)").unwrap();
    runtime.execute("geo = (geo(x) = x)").unwrap();
    let out = runtime.execute("import(geo)").unwrap();
    // what the module printed is dropped
    assert_eq!(out.last().unwrap(), "<import module <defined function geo>>");
    assert_eq!(runtime.execute("square(3)").unwrap().last().unwrap(), "9");
    assert_eq!(runtime.execute("k").unwrap().last().unwrap(), "7");
    assert_eq!(runtime.execute("half(5)").unwrap().last().unwrap(), "2.5000000");
    // a second import of the same module does nothing
    let n = runtime.output().len();
    runtime.execute("import(geo)").unwrap();
    assert_eq!(runtime.output().len(), n + 1);
}

#[test]
fn import_errors_are_reported() {
    let mut runtime = module_runtime();
    runtime.execute("__detail_depth__(1)").unwrap();
    runtime.execute("bad = (bad(x) = x)\nnope = (nope(x) = x)").unwrap();
    assert_eq!(
        re_msg(runtime.execute("import(bad)")),
        "\n\tImport Error:\n\t\tRuntime Error: undefined_thing is undefined variable"
    );
    assert_eq!(re_msg(runtime.execute("import(nope)")), "module <defined function nope> does not exist");
    assert_eq!(
        re_msg(runtime.execute("import(1)")),
        "import() function only accpets literal string but got type I32"
    );
    assert_eq!(
        re_msg(runtime.execute("import_rlib(bad)")),
        "cannot read rust library <defined function bad>, may not exist or no export_module()"
    );
}

#[test]
fn import_mls_reports_missing_modules_and_needs_a_caller_scope() {
    let mut runtime = module_runtime();
    let missing = runtime.import_mls(&"nope".to_string(), &"lib/nope.mls".to_string(), Some(4));
    let err = missing.unwrap_err();
    assert_eq!(err.line, 4);
    assert_eq!(err.msg, "module nope does not exist");
    // at the top level there is no scope below the global one to take the definitions
    let top = runtime.import_mls(
        &"geo".to_string(),
        &"lib/<defined function geo>.mls".to_string(),
        None,
    );
    assert_eq!(top.unwrap_err().line, 0);
}

#[test]
fn invalid_tokens_are_refused_before_anything_runs() {
    let mut runtime = Runtime::new(Host, Files(vec![]));
    runtime.execute("println(1)").unwrap();
    let before = runtime.output().clone();
    match runtime.execute("println(2)\nx = 3 # 4") {
        Err(math_lang::error::GlobalError::CE(e)) => {
            assert_eq!(e.msg, "invalid token");
            assert_eq!(e.line, 1);
        },
        _ => panic!("expected a compiler error"),
    }
    assert_eq!(runtime.output(), &before);
    assert!(re_msg(runtime.execute("x")).contains("undefined"));
}

#[test]
fn products_with_a_zero_or_one_on_the_left() {
    let mut runtime = Runtime::new(Host, Files(vec![]));
    // the right side of a product whose left side is 0 is never run
    assert_eq!(runtime.execute("0 * undefined_name").unwrap(), lines(&["0"]));
    assert_eq!(runtime.execute("1 * 2.5").unwrap().last().unwrap(), "2.5000000");
    assert_eq!(runtime.execute("-10 mod 3\n2 * 3").unwrap(), lines(&["0", "2.5000000", "2", "6"]));
}

#[test]
fn builtin_constants() {
    let mut runtime = Runtime::new(Host, Files(vec![]));
    assert_eq!(runtime.execute("true\nfalse\n1").unwrap(), lines(&["0", "0", "1"]));
}

#[test]
fn parentheses_group_by_precedence() {
    let mut runtime = Runtime::new(Host, Files(vec![]));
    assert_eq!(runtime.execute("(1 + 2) * 3\n1 + 2 * 3\n2 ^ 3 ^ 2").unwrap(), lines(&["9", "7", "64"]));
    // parentheses with no operand inside give none to the expression around them
    assert!(runtime.execute("(()) + 1").is_err());
}

#[test]
fn arguments_bind_in_order() {
    let mut runtime = Runtime::new(Host, Files(vec![]));
    runtime.execute("f(a, b) = a - b * 10").unwrap();
    assert_eq!(runtime.execute("f(5, 2)").unwrap().last().unwrap(), "-15");
    assert_eq!(runtime.execute("f(2, 5)").unwrap().last().unwrap(), "-48");
}
