//! The runtime: runs compiled instructions over a stack of scopes.
//!
//! Every value lives in a cell of the runtime's store; scopes bind names to cells, so an
//! assignment to a name writes the cell that every holder of it sees. Function calls push a
//! scope one level deeper, and a call deeper than the configured limit is refused. Results of
//! top-level instructions are printed to the output, which only ever grows.
use vstd::prelude::*;
use vstd::string::StringExecFns;
use vstd::string::StringSliceAdditionalSpecFns;
use crate::big_num::num::BigNum;
use crate::big_num::uint::BigUint;
use crate::comiler::{Compiler, Expr, Inst, prep, call_free, program, lexed_tokens, compile_result, ast_matches};
use crate::env::{Env, is_env};
use crate::error::{CompilerError, GlobalError, RuntimeError, num_text};
use crate::lexer::{lex_from, lexed, Loc, Token};
use crate::scope::{Fun, Scope, copy_exprs, copy_insts, copy_expr, table_below};
use crate::var::{ArithOp, Var, VarType, is_displayable, bytes_eq};

verus! {

/// Functions on real numbers that the host computes in floating point: `sin`, `cos`, `tan`,
/// `asin`, `acos`, `atan`, `abs`, `sqrt`, `ceil`, `floor`, `round`, `exp`, `log`, `log2`, `ln`,
/// `trunc`, `cbrt`, `sign` and `int32` of one number, and powers of real numbers.
pub trait FloatMath {
    /// The named function of a number, or the error message the function gives.
    fn math(&self, name: &String, x: &Var) -> Result<Var, String>;

    /// `base` to the power `exp`, for operands that are not both integers.
    fn powf(&self, base: &Var, exp: &Var) -> Var;
}

/// The source of modules: the text of the module file at a path, or an error when it cannot
/// be read.
pub trait ModSystem {
    fn read(&self, path: &String) -> Result<String, ()>;
}

/// Every scope of a list has its cell and function indices below `c` and `f`.
pub open spec fn scopes_within(s: Seq<Scope>, c: nat, f: nat) -> bool {
    forall|i: int| 0 <= i < s.len() ==> #[trigger] s[i].within(c, f)
}

/// Every scope of a list stands at most `2^32` calls deep.
pub open spec fn depths_ok(s: Seq<Scope>) -> bool {
    forall|i: int| 0 <= i < s.len() ==> #[trigger] s[i].stack_depth <= 0x1_0000_0000
}

/// The call depths of a list of scopes.
pub open spec fn depths(s: Seq<Scope>) -> Seq<u64> {
    s.map_values(|x: Scope| x.stack_depth)
}

/// The first cell bound to `name` in the scopes at `i` and below, where a scope named as the
/// last one searched is passed over (so that the frames of a recursive call hide each other).
pub open spec fn var_search(s: Seq<Scope>, i: int, last: Option<Seq<char>>, name: Seq<char>) -> Option<usize>
    decreases i + 1,
{
    if i < 0 || i >= s.len() {
        None
    } else if last == Some(s[i].name@) {
        var_search(s, i - 1, last, name)
    } else {
        match s[i].var_of(name) {
            Some(h) => Some(h),
            None => var_search(s, i - 1, Some(s[i].name@), name),
        }
    }
}

/// The first function bound to `name` in the scopes at `i` and below.
pub open spec fn fun_search(s: Seq<Scope>, i: int, name: Seq<char>) -> Option<usize>
    decreases i + 1,
{
    if i < 0 || i >= s.len() {
        None
    } else {
        match s[i].fun_of(name) {
            Some(h) => Some(h),
            None => fun_search(s, i - 1, name),
        }
    }
}

proof fn lemma_within_mono(s: Scope, c1: nat, f1: nat, c2: nat, f2: nat)
    requires
        s.within(c1, f1),
        c1 <= c2,
        f1 <= f2,
    ensures
        s.within(c2, f2),
{
    assert forall|i: int| 0 <= i < s.var_table@.len() implies (#[trigger] s.var_table@[i]).1 < c2 by {
        assert(s.var_table@[i].1 < c1);
    }
    assert forall|i: int| 0 <= i < s.fun_table@.len() implies (#[trigger] s.fun_table@[i]).1 < f2 by {
        assert(s.fun_table@[i].1 < f1);
    }
    assert forall|i: int| 0 <= i < s.heap@.len() implies #[trigger] s.heap@[i] < c2 by {
        assert(s.heap@[i] < c1);
    }
}

proof fn lemma_scopes_mono(s: Seq<Scope>, c1: nat, f1: nat, c2: nat, f2: nat)
    requires
        scopes_within(s, c1, f1),
        c1 <= c2,
        f1 <= f2,
    ensures
        scopes_within(s, c2, f2),
{
    assert forall|i: int| 0 <= i < s.len() implies #[trigger] s[i].within(c2, f2) by {
        lemma_within_mono(s[i], c1, f1, c2, f2);
    }
}

proof fn lemma_var_search_below(s: Seq<Scope>, i: int, last: Option<Seq<char>>, name: Seq<char>, c: nat, f: nat)
    requires
        scopes_within(s, c, f),
    ensures
        var_search(s, i, last, name) matches Some(h) ==> h < c,
    decreases i + 1,
{
    if 0 <= i < s.len() {
        assert(s[i].within(c, f));
        crate::scope::lemma_table_get_below(s[i].var_table@, name, c);
        if last == Some(s[i].name@) {
            lemma_var_search_below(s, i - 1, last, name, c, f);
        } else {
            lemma_var_search_below(s, i - 1, Some(s[i].name@), name, c, f);
        }
    }
}

proof fn lemma_var_search_same(s1: Seq<Scope>, s2: Seq<Scope>, i: int, last: Option<Seq<char>>, m: Seq<char>)
    requires
        s1.len() == s2.len(),
        forall|j: int| 0 <= j < s1.len() ==> s1[j].name == s2[j].name && (#[trigger] s1[j]).var_of(m) == s2[j].var_of(m),
    ensures
        var_search(s1, i, last, m) == var_search(s2, i, last, m),
    decreases i + 1,
{
    if 0 <= i < s1.len() {
        assert(s1[i].name == s2[i].name && s1[i].var_of(m) == s2[i].var_of(m));
        lemma_var_search_same(s1, s2, i - 1, last, m);
        lemma_var_search_same(s1, s2, i - 1, Some(s1[i].name@), m);
    }
}

proof fn lemma_fun_search_below(s: Seq<Scope>, i: int, name: Seq<char>, c: nat, f: nat)
    requires
        scopes_within(s, c, f),
    ensures
        fun_search(s, i, name) matches Some(h) ==> h < f,
    decreases i + 1,
{
    if 0 <= i < s.len() {
        assert(s[i].within(c, f));
        crate::scope::lemma_table_get_below(s[i].fun_table@, name, f);
        lemma_fun_search_below(s, i - 1, name, c, f);
    }
}

/// The largest call depth `exec_inst` accepts, plus one.
pub open spec fn depth_limit() -> int {
    0x1_0000_0000
}

/// The runtime: the cells and functions, the builtin scope, the stack of local scopes (with
/// the frames of recursive calls set aside), the output lines and the unfinished line, the
/// next scope id and the settings; `F` computes the functions of real numbers and `M` reads
/// modules, found below the work path; the modules imported so far.
pub struct Runtime<F: FloatMath, M: ModSystem> {
    cells: Vec<Var>,
    funs: Vec<Fun>,
    builtin: Scope,
    locals: Vec<Scope>,
    recur: Vec<Scope>,
    output: Vec<String>,
    out_buffer: String,
    max_scope_id: usize,
    env: Env,
    math: F,
    msys: M,
    work_path: String,
    module: Vec<String>,
}

/// The text of `a`, then `b`, then `c`.
fn text3(a: &str, b: &str, c: &str) -> (r: String)
    ensures
        r@ == a@ + b@ + c@,
{
    String::from_str(a).concat(b).concat(c)
}

/// The decimal text of a `usize`.
fn usize_text(n: usize) -> (r: String)
    ensures
        r@ == num_text(n as nat),
{
    BigUint::from_u64(n as u64).to_string()
}

/// The name a type goes by in messages about arguments of builtin functions.
pub open spec fn api_type_text(t: VarType) -> Seq<char> {
    match t {
        VarType::Empty => "ByteArray"@,
        VarType::I32 => "I32"@,
        VarType::I64 => "I64"@,
        VarType::Real => "BigNum"@,
        VarType::Sequence => "Sequence"@,
    }
}

/// The name a type goes by in messages about arguments of builtin functions (see
/// `api_type_text`).
fn api_type_name(t: VarType) -> (r: &'static str)
    ensures
        r@ == api_type_text(t),
{
    match t {
        VarType::Empty => "ByteArray",
        VarType::I32 => "I32",
        VarType::I64 => "I64",
        VarType::Real => "BigNum",
        VarType::Sequence => "Sequence",
    }
}

/// Whether a string equals a literal.
fn text_is(s: &String, lit: &str) -> (r: bool)
    ensures
        r == (s@ == lit@),
{
    *s == String::from_str(lit)
}

/// An error at a line.
fn error(line: usize, msg: String) -> (r: RuntimeError)
    ensures
        r.line == line,
        r.msg@ == msg@,
{
    RuntimeError { line, msg }
}

/// The error for a state the runtime never reaches from compiled programs.
fn internal(line: usize) -> (r: RuntimeError)
    ensures
        r.line == line,
        r.msg@ == "runtime internal error!"@,
{
    error(line, String::from_str("runtime internal error!"))
}

impl<F: FloatMath, M: ModSystem> Runtime<F, M> {
    /// The invariant: a local scope exists, every index held anywhere names an existing cell or
    /// function, call depths stay below `2^32` and the precision below sixteen places.
    pub closed spec fn wf(&self) -> bool {
        let c = self.cells@.len();
        let f = self.funs@.len();
        &&& self.locals@.len() >= 1
        &&& self.builtin.within(c, f)
        &&& scopes_within(self.locals@, c, f)
        &&& scopes_within(self.recur@, c, f)
        &&& depths_ok(self.locals@)
        &&& depths_ok(self.recur@)
        &&& self.env.precision <= 15
        &&& self.module@.len() <= usize::MAX
    }

    /// The output lines so far.
    pub closed spec fn output_lines(&self) -> Seq<String> {
        self.output@
    }

    /// The unfinished output line.
    pub closed spec fn pending(&self) -> Seq<char> {
        self.out_buffer@
    }

    /// The cell a variable name reads: the visible local one, else the builtin one.
    pub closed spec fn var_cell(&self, n: Seq<char>) -> Option<usize> {
        let found = var_search(self.locals@, self.locals@.len() - 1, None, n);
        if found is Some { found } else { self.builtin.var_of(n) }
    }

    /// Whether a module of that name has been imported.
    pub closed spec fn imported(&self, name: Seq<char>) -> bool {
        exists|j: int| 0 <= j < self.module@.len() && (#[trigger] self.module@[j])@ == name
    }

    /// The value in a cell.
    pub closed spec fn cell_value(&self, c: usize) -> (VarType, Seq<u8>) {
        self.cells@[c as int]@
    }

    /// The cell a program of one instruction that only reads a variable reads.
    pub closed spec fn single_read(&self, ast: Seq<Inst>) -> Option<usize> {
        if ast.len() == 1 && prints_var(ast[0]) is Some { self.var_cell(prints_var(ast[0])->0) } else { None }
    }

    /// `self` is `old` with one more cell at the end and nothing else changed.
    pub closed spec fn pushed_cell(&self, old: &Self) -> bool {
        &&& self.cells@.len() == old.cells@.len() + 1
        &&& forall|i: int| 0 <= i < old.cells@.len() ==> self.cells@[i] == old.cells@[i]
        &&& self.funs == old.funs
        &&& self.module == old.module
        &&& self.builtin == old.builtin
        &&& self.locals == old.locals
        &&& self.recur == old.recur
        &&& self.output == old.output
        &&& self.out_buffer == old.out_buffer
        &&& self.env == old.env
    }

    /// The highest scope id handed out so far.
    pub closed spec fn scope_counter(&self) -> usize {
        self.max_scope_id
    }

    /// The directory that module paths are relative to.
    pub closed spec fn work_dir(&self) -> Seq<char> {
        self.work_path@
    }

    /// The settings.
    pub closed spec fn settings(&self) -> Env {
        self.env
    }

    /// How many more modules can be imported: a measure that only imports decrease.
    closed spec fn mods_left(&self) -> int {
        usize::MAX - self.module@.len()
    }

    /// The function a call of `n` reaches (see `find_fun`).
    pub closed spec fn callee(&self, n: Seq<char>) -> usize {
        match fun_search(self.locals@, self.locals@.len() - 1, n) {
            Some(h) => h,
            None => self.builtin.fun_of(n)->0,
        }
    }

    /// A call of `n` with the arguments `args` that this state can run straight through: `n`
    /// names a function of the program (not a setting) whose body is one arithmetic
    /// instruction reading only its parameters; the arguments are arithmetic and as many as the
    /// parameters; a scope id is left and the call stays within the configured depth.
    pub closed spec fn simple_call(&self, n: Seq<char>, args: Seq<Expr>) -> bool {
        let found = fun_search(self.locals@, self.locals@.len() - 1, n) is Some || self.builtin.fun_of(n) is Some;
        let f = self.callee(n);
        let fd = self.funs@[f as int].data@;
        let ps = self.funs@[f as int].para_name@.map_values(|s: String| s@);
        &&& found
        &&& fd.len() == 1 && arith_inst(fd[0]) && reads_params_inst(fd[0], ps)
        &&& args.len() == ps.len()
        &&& !crate::env::env_name(vstd::utf8::encode_utf8(n))
        &&& forall|j: int| 0 <= j < args.len() ==> arith_expr(#[trigger] args[j])
        &&& self.max_scope_id < usize::MAX
        &&& self.top_depth() < self.env.max_stack_depth
    }

    /// `self` follows `old` by an assignment to the variable `n`, which now reads cell `h`:
    /// among the old cells only `h` changed, every other variable whose name does not read as
    /// a number reads what it read, new builtin names are cached literals, and `h` is the cell
    /// `n` read before, or a new one where it read none.
    pub closed spec fn assigned(&self, old: &Self, n: Seq<char>, h: usize) -> bool {
        &&& self.locals@.len() == old.locals@.len()
        &&& self.env == old.env && self.funs == old.funs && self.out_buffer == old.out_buffer && self.output == old.output
        &&& old.cells@.len() <= self.cells@.len()
        &&& h < self.cells@.len()
        &&& forall|i: int| 0 <= i < old.cells@.len() && i != h ==> #[trigger] self.cells@[i]@ == old.cells@[i]@
        &&& forall|m: Seq<char>| #[trigger] self.builtin.var_of(m) == old.builtin.var_of(m) || {
            &&& old.builtin.var_of(m) is None
            &&& self.builtin.var_of(m) matches Some(c) && old.cells@.len() <= c < self.cells@.len() && c != h
                && literal_value(vstd::utf8::encode_utf8(m)) == Some(self.cells@[c as int]@)
        }
        &&& self.var_cell(n) == Some(h)
        &&& forall|m: Seq<char>| m != n && literal_value(vstd::utf8::encode_utf8(m)) is None
            ==> #[trigger] self.var_cell(m) == old.var_cell(m)
        &&& match old.var_cell(n) {
            Some(g) => h == g,
            None => h >= old.cells@.len(),
        }
    }

    /// The value of an arithmetic expression after a program has written the values `ov` into
    /// cells of this state and added the variables `nb`: an added variable reads its value, any
    /// other its cell, a literal its cached cell or its parsed value; a written cell holds what
    /// was written.
    #[verifier::opaque]
    pub closed spec fn ov_eval(&self, ov: Map<usize, (VarType, Seq<u8>)>, nb: Map<Seq<char>, (VarType, Seq<u8>)>, e: Expr) -> Option<(VarType, Seq<u8>)>
        decreases e,
    {
        match e {
            Expr::Var(n) => if nb.contains_key(n@) {
                Some(nb[n@])
            } else {
                match self.var_cell(n@) {
                    Some(h) => Some(if ov.contains_key(h) { ov[h] } else { self.cells@[h as int]@ }),
                    None => None,
                }
            },
            Expr::Number(d) => match self.builtin.var_of(d@) {
                Some(h) => Some(if ov.contains_key(h) { ov[h] } else { self.cells@[h as int]@ }),
                None => literal_value(vstd::utf8::encode_utf8(d@)),
            },
            Expr::Inst(i) => self.ov_eval_inst(ov, nb, *i),
            _ => None,
        }
    }

    /// The value of an arithmetic instruction after writes (see `ov_eval`).
    #[verifier::opaque]
    pub closed spec fn ov_eval_inst(&self, ov: Map<usize, (VarType, Seq<u8>)>, nb: Map<Seq<char>, (VarType, Seq<u8>)>, i: Inst) -> Option<(VarType, Seq<u8>)>
        decreases i,
    {
        match i {
            Inst::Expr(e) => inst_value(i, self.ov_eval(ov, nb, e), None),
            Inst::Neg(e) => inst_value(i, self.ov_eval(ov, nb, e), None),
            Inst::Add(l, r) => inst_value(i, self.ov_eval(ov, nb, l), self.ov_eval(ov, nb, r)),
            Inst::Sub(l, r) => inst_value(i, self.ov_eval(ov, nb, l), self.ov_eval(ov, nb, r)),
            Inst::Mul(l, r) => inst_value(i, self.ov_eval(ov, nb, l), self.ov_eval(ov, nb, r)),
            Inst::Div(l, r) => inst_value(i, self.ov_eval(ov, nb, l), self.ov_eval(ov, nb, r)),
            Inst::Mod(l, r) => inst_value(i, self.ov_eval(ov, nb, l), self.ov_eval(ov, nb, r)),
            _ => None,
        }
    }

    /// `self` is this runtime after a program has written `ov` into old cells and added the
    /// variables `nb` (each in a new cell of its own), with only cached literals besides.
    pub closed spec fn overlays(&self, old: &Self, ov: Map<usize, (VarType, Seq<u8>)>, nb: Map<Seq<char>, (VarType, Seq<u8>)>) -> bool {
        &&& self.locals@.len() == old.locals@.len()
        &&& self.env == old.env && self.funs == old.funs && self.out_buffer == old.out_buffer
        &&& old.cells@.len() <= self.cells@.len()
        &&& forall|h: usize| #[trigger] ov.contains_key(h) ==> h < old.cells@.len()
        &&& forall|i: usize| (i as int) < old.cells@.len() ==> #[trigger] self.cells@[i as int]@
            == (if ov.contains_key(i) { ov[i] } else { old.cells@[i as int]@ })
        &&& forall|m: Seq<char>| #[trigger] self.builtin.var_of(m) == old.builtin.var_of(m) || {
            &&& old.builtin.var_of(m) is None
            &&& self.builtin.var_of(m) matches Some(c) && old.cells@.len() <= c < self.cells@.len()
                && literal_value(vstd::utf8::encode_utf8(m)) == Some(self.cells@[c as int]@)
                && (forall|k: Seq<char>| nb.contains_key(k) ==> #[trigger] self.var_cell(k) != Some(c))
        }
        &&& forall|m: Seq<char>| #[trigger] nb.contains_key(m) ==> literal_value(vstd::utf8::encode_utf8(m)) is None
        &&& forall|m: Seq<char>| literal_value(vstd::utf8::encode_utf8(m)) is None ==> (if nb.contains_key(m) {
                #[trigger] self.var_cell(m) matches Some(c) && old.cells@.len() <= c < self.cells@.len() && self.cells@[c as int]@ == nb[m]
            } else {
                self.var_cell(m) == old.var_cell(m)
            })
        &&& forall|m1: Seq<char>, m2: Seq<char>| nb.contains_key(m1) && nb.contains_key(m2) && m1 != m2
            ==> #[trigger] self.var_cell(m1) != #[trigger] self.var_cell(m2)
    }

    /// The name of the outermost local scope.
    pub closed spec fn base_name(&self) -> Seq<char> {
        self.locals@[0].name@
    }

    /// The name of the innermost local scope.
    pub closed spec fn top_name(&self) -> Seq<char> {
        self.locals@.last().name@
    }

    /// How many local scopes there are.
    pub closed spec fn scope_count(&self) -> nat {
        self.locals@.len()
    }

    /// How many modules have been imported.
    pub closed spec fn module_count(&self) -> nat {
        self.module@.len()
    }

    /// The innermost scope defines nothing a module import would move: no function, and no
    /// variable but `__module__`.
    pub closed spec fn plain_top(&self) -> bool {
        &&& self.locals@.last().fun_table@.len() == 0
        &&& forall|j: int| 0 <= j < self.locals@.last().var_table@.len()
            ==> (#[trigger] self.locals@.last().var_table@[j]).0@ == "__module__"@
    }

    /// What running the module text `b` gives in this state, where it lexes and has no calls:
    /// refused where it does not compile; for a module of arithmetic lines, `ok` exactly when
    /// each line has a value that can be shown (see `arith_outputs`).
    pub open spec fn module_result(&self, b: Seq<u8>, ok: bool) -> bool {
        exists|tk: Seq<(Loc, Token, Loc)>| {
            &&& #[trigger] lexed(b, tk, None)
            &&& prep(lexed_tokens(tk)) is None ==> !ok
            &&& (prep(lexed_tokens(tk)) matches Some(st) ==> call_free(st.0) ==> {
                &&& program(st.0) is None ==> !ok
                &&& (program(st.0) matches Some(pg) ==> (forall|i: int| 0 <= i < pg.len() ==> arith_item(#[trigger] pg[i]))
                    ==> exists|ast: Seq<Inst>| #[trigger] ast_matches(ast, pg) && (ok <==> self.arith_outputs(ast) is Some))
            })
        }
    }

    /// The innermost scope is the global one: it is the only scope, or it bears that name.
    pub closed spec fn at_global(&self) -> bool {
        self.locals@.len() == 1 || self.locals@.last().name@ == "__global__"@
    }

    /// The call depth of the innermost scope.
    pub closed spec fn top_depth(&self) -> u64 {
        self.locals@.last().stack_depth
    }

    /// The call depths of the local scopes and of the frames set aside.
    closed spec fn frame(&self) -> (Seq<u64>, Seq<u64>) {
        (depths(self.locals@), depths(self.recur@))
    }

    /// The store only grows and the output only gains lines at its end.
    pub closed spec fn grows_from(&self, old: &Self) -> bool {
        &&& old.cells@.len() <= self.cells@.len()
        &&& old.funs@.len() <= self.funs@.len()
        &&& old.module@.len() <= self.module@.len()
        &&& forall|i: int| 0 <= i < old.module@.len() ==> self.module@[i] == old.module@[i]
        &&& old.output@.len() <= self.output@.len()
        &&& forall|i: int| 0 <= i < old.output@.len() ==> self.output@[i] == old.output@[i]
        &&& old.locals@.len() >= 1 && self.locals@.len() >= 1 ==> self.locals@[0].name == old.locals@[0].name
    }

    /// Two states that differ at most in the output.
    pub closed spec fn same_except_output(&self, o: &Self) -> bool {
        &&& self.cells == o.cells
        &&& self.funs == o.funs
        &&& self.builtin == o.builtin
        &&& self.locals == o.locals
        &&& self.recur == o.recur
        &&& self.env == o.env
        &&& self.module == o.module
    }

    /// `self` follows `old` by steps that only read: the scopes, settings and output are the
    /// same, old cells keep their values, new cells may follow, and a name new to the builtin
    /// scope is a number literal bound to a cell holding its value.
    pub closed spec fn only_read(&self, old: &Self) -> bool {
        &&& self.read_since(old)
        &&& self.output == old.output
    }

    /// As `only_read`, with the output free to grow.
    pub closed spec fn read_since(&self, old: &Self) -> bool {
        &&& self.locals == old.locals
        &&& self.funs == old.funs
        &&& self.env == old.env
        &&& self.out_buffer == old.out_buffer
        &&& self.lits_since(old)
    }

    /// Old cells keep their values, new cells may follow, and a name new to the builtin scope
    /// is a number literal bound to a cell holding its value.
    pub closed spec fn lits_since(&self, old: &Self) -> bool {
        &&& old.cells@.len() <= self.cells@.len()
        &&& forall|i: int| 0 <= i < old.cells@.len() ==> #[trigger] self.cells@[i]@ == old.cells@[i]@
        &&& forall|n: Seq<char>| #[trigger] self.builtin.var_of(n) == old.builtin.var_of(n) || {
            &&& old.builtin.var_of(n) is None
            &&& self.builtin.var_of(n) matches Some(h) && old.cells@.len() <= h < self.cells@.len()
                && literal_value(vstd::utf8::encode_utf8(n)) == Some(self.cells@[h as int]@)
        }
    }

    /// The value of an arithmetic expression (see `arith_expr`) in this state; `None` where
    /// running it fails. A variable reads its cell and a literal its cached cell, or else its
    /// parsed value. A product whose left side is the integer 0 is that side, and the right
    /// side is not run; one whose left side is the integer 1 is the right side.
    #[verifier::opaque]
    pub closed spec fn arith_eval(&self, e: Expr) -> Option<(VarType, Seq<u8>)>
        decreases e,
    {
        match e {
            Expr::Var(n) => match self.var_cell(n@) {
                Some(h) => Some(self.cells@[h as int]@),
                None => None,
            },
            Expr::Number(d) => match self.builtin.var_of(d@) {
                Some(h) => Some(self.cells@[h as int]@),
                None => literal_value(vstd::utf8::encode_utf8(d@)),
            },
            Expr::Inst(i) => self.arith_eval_inst(*i),
            _ => None,
        }
    }

    /// The value of an arithmetic instruction (see `arith_eval`).
    #[verifier::opaque]
    pub closed spec fn arith_eval_inst(&self, i: Inst) -> Option<(VarType, Seq<u8>)>
        decreases i,
    {
        match i {
            Inst::Expr(e) => self.arith_eval(e),
            Inst::Neg(e) => match self.arith_eval(e) {
                Some(a) => if crate::var::is_number(a) { Some(crate::var::neg_view(a)) } else { None },
                None => None,
            },
            Inst::Mul(l, r) => match self.arith_eval(l) {
                Some(a) => if a.0 == VarType::Empty || a.0 == VarType::Sequence {
                    None
                } else if int_value(a) == Some(0int) {
                    Some(a)
                } else {
                    match self.arith_eval(r) {
                        Some(b) => if int_value(a) == Some(1int) {
                            Some(b)
                        } else if crate::var::is_number(a) && crate::var::is_number(b) && usize::MAX == u64::MAX {
                            Some(crate::var::arith_view(ArithOp::Mul, a, b))
                        } else {
                            None
                        },
                        None => None,
                    }
                },
                None => None,
            },
            Inst::Add(l, r) => arith_pair(ArithOp::Add, self.arith_eval(l), self.arith_eval(r)),
            Inst::Sub(l, r) => arith_pair(ArithOp::Sub, self.arith_eval(l), self.arith_eval(r)),
            Inst::Div(l, r) => arith_pair(ArithOp::Div, self.arith_eval(l), self.arith_eval(r)),
            Inst::Mod(l, r) => arith_pair(ArithOp::Rem, self.arith_eval(l), self.arith_eval(r)),
            _ => None,
        }
    }

    /// The value of an arithmetic expression in a call whose parameters `ps` hold the values
    /// `vs`: a parameter reads the value of its last occurrence, a literal as in `arith_eval`;
    /// `None` for any other variable or where running fails.
    #[verifier::opaque]
    pub closed spec fn call_eval(&self, ps: Seq<Seq<char>>, vs: Seq<(VarType, Seq<u8>)>, e: Expr) -> Option<(VarType, Seq<u8>)>
        decreases e,
    {
        match e {
            Expr::Var(n) => match param_at(ps, n@) {
                Some(j) => if j < vs.len() { Some(vs[j]) } else { None },
                None => None,
            },
            Expr::Number(d) => match self.builtin.var_of(d@) {
                Some(h) => Some(self.cells@[h as int]@),
                None => literal_value(vstd::utf8::encode_utf8(d@)),
            },
            Expr::Inst(i) => self.call_eval_inst(ps, vs, *i),
            _ => None,
        }
    }

    /// The value of an arithmetic instruction in a call (see `call_eval`).
    #[verifier::opaque]
    pub closed spec fn call_eval_inst(&self, ps: Seq<Seq<char>>, vs: Seq<(VarType, Seq<u8>)>, i: Inst) -> Option<(VarType, Seq<u8>)>
        decreases i,
    {
        match i {
            Inst::Expr(e) => inst_value(i, self.call_eval(ps, vs, e), None),
            Inst::Neg(e) => inst_value(i, self.call_eval(ps, vs, e), None),
            Inst::Add(l, r) => inst_value(i, self.call_eval(ps, vs, l), self.call_eval(ps, vs, r)),
            Inst::Sub(l, r) => inst_value(i, self.call_eval(ps, vs, l), self.call_eval(ps, vs, r)),
            Inst::Mul(l, r) => inst_value(i, self.call_eval(ps, vs, l), self.call_eval(ps, vs, r)),
            Inst::Div(l, r) => inst_value(i, self.call_eval(ps, vs, l), self.call_eval(ps, vs, r)),
            Inst::Mod(l, r) => inst_value(i, self.call_eval(ps, vs, l), self.call_eval(ps, vs, r)),
            _ => None,
        }
    }

    /// In a state whose parameters hold `vs` and whose literals are as in `old`, an arithmetic
    /// expression that reads only parameters has its call value.
    proof fn lemma_call_eval(s2: &Self, old: &Self, ps: Seq<Seq<char>>, vs: Seq<(VarType, Seq<u8>)>, e: Expr)
        requires
            old.wf(),
            s2.lits_since(old),
            arith_expr(e),
            reads_params(e, ps),
            vs.len() == ps.len(),
            forall|j: int| 0 <= j < ps.len() && #[trigger] param_at(ps, ps[j]) == Some(j)
                ==> (s2.var_cell(ps[j]) matches Some(h) && h < s2.cells@.len() && s2.cells@[h as int]@ == vs[j]),
        ensures
            s2.arith_eval(e) == old.call_eval(ps, vs, e),
        decreases e,
    {
        reveal_with_fuel(Runtime::arith_eval, 1);
        reveal_with_fuel(Runtime::arith_eval_inst, 1);
        reveal_with_fuel(Runtime::call_eval, 1);
        reveal_with_fuel(Runtime::call_eval_inst, 1);
        match e {
            Expr::Var(n) => {
                let j = param_at(ps, n@)->0;
                lemma_param_at(ps, n@);
                assert(param_at(ps, ps[j]) == Some(j));
            },
            Expr::Number(d) => {
                crate::scope::lemma_table_get_below(old.builtin.var_table@, d@, old.cells@.len());
                assert(s2.builtin.var_of(d@) == old.builtin.var_of(d@) || old.builtin.var_of(d@) is None);
                match old.builtin.var_of(d@) {
                    Some(h) => { assert(s2.cells@[h as int]@ == old.cells@[h as int]@); },
                    None => {},
                }
            },
            Expr::Inst(i) => {
                match *i {
                    Inst::Expr(x) => { Self::lemma_call_eval(s2, old, ps, vs, x); },
                    Inst::Neg(x) => { Self::lemma_call_eval(s2, old, ps, vs, x); },
                    Inst::Add(l, r) => { Self::lemma_call_eval(s2, old, ps, vs, l); Self::lemma_call_eval(s2, old, ps, vs, r); },
                    Inst::Sub(l, r) => { Self::lemma_call_eval(s2, old, ps, vs, l); Self::lemma_call_eval(s2, old, ps, vs, r); },
                    Inst::Mul(l, r) => { Self::lemma_call_eval(s2, old, ps, vs, l); Self::lemma_call_eval(s2, old, ps, vs, r); },
                    Inst::Div(l, r) => { Self::lemma_call_eval(s2, old, ps, vs, l); Self::lemma_call_eval(s2, old, ps, vs, r); },
                    Inst::Mod(l, r) => { Self::lemma_call_eval(s2, old, ps, vs, l); Self::lemma_call_eval(s2, old, ps, vs, r); },
                    _ => {},
                }
            },
            _ => {},
        }
    }

    /// The instruction form of `lemma_call_eval`.
    proof fn lemma_call_eval_inst(s2: &Self, old: &Self, ps: Seq<Seq<char>>, vs: Seq<(VarType, Seq<u8>)>, i: Inst)
        requires
            old.wf(),
            s2.lits_since(old),
            arith_inst(i),
            reads_params_inst(i, ps),
            vs.len() == ps.len(),
            forall|j: int| 0 <= j < ps.len() && #[trigger] param_at(ps, ps[j]) == Some(j)
                ==> (s2.var_cell(ps[j]) matches Some(h) && h < s2.cells@.len() && s2.cells@[h as int]@ == vs[j]),
        ensures
            s2.arith_eval_inst(i) == old.call_eval_inst(ps, vs, i),
    {
        reveal_with_fuel(Runtime::arith_eval, 1);
        reveal_with_fuel(Runtime::arith_eval_inst, 1);
        reveal_with_fuel(Runtime::call_eval, 1);
        reveal_with_fuel(Runtime::call_eval_inst, 1);
        match i {
            Inst::Expr(x) => { Self::lemma_call_eval(s2, old, ps, vs, x); },
            Inst::Neg(x) => { Self::lemma_call_eval(s2, old, ps, vs, x); },
            Inst::Add(l, r) => { Self::lemma_call_eval(s2, old, ps, vs, l); Self::lemma_call_eval(s2, old, ps, vs, r); },
            Inst::Sub(l, r) => { Self::lemma_call_eval(s2, old, ps, vs, l); Self::lemma_call_eval(s2, old, ps, vs, r); },
            Inst::Mul(l, r) => { Self::lemma_call_eval(s2, old, ps, vs, l); Self::lemma_call_eval(s2, old, ps, vs, r); },
            Inst::Div(l, r) => { Self::lemma_call_eval(s2, old, ps, vs, l); Self::lemma_call_eval(s2, old, ps, vs, r); },
            Inst::Mod(l, r) => { Self::lemma_call_eval(s2, old, ps, vs, l); Self::lemma_call_eval(s2, old, ps, vs, r); },
            _ => {},
        }
    }

    /// The number literal `d` as this state reads it: its cached cell, else its parsed value.
    pub closed spec fn literal_read(&self, d: Seq<char>) -> Option<(VarType, Seq<u8>)> {
        match self.builtin.var_of(d) {
            Some(h) => Some(self.cells@[h as int]@),
            None => literal_value(vstd::utf8::encode_utf8(d)),
        }
    }

    /// What `arith_eval` is, case by case.
    pub proof fn lemma_arith_eval_def(&self, e: Expr)
        ensures
            self.arith_eval(e) == match e {
                Expr::Var(n) => match self.var_cell(n@) {
                    Some(h) => Some(self.cell_value(h)),
                    None => None,
                },
                Expr::Number(d) => self.literal_read(d@),
                Expr::Inst(i) => self.arith_eval_inst(*i),
                _ => None,
            },
    {
        reveal_with_fuel(Runtime::arith_eval, 1);
        reveal_with_fuel(Runtime::arith_eval_inst, 1);
    }

    /// What `arith_eval_inst` is: `inst_value` of the values of the operands.
    pub proof fn lemma_arith_eval_inst_def(&self, i: Inst)
        ensures
            self.arith_eval_inst(i) == match i {
                Inst::Expr(e) => inst_value(i, self.arith_eval(e), None),
                Inst::Neg(e) => inst_value(i, self.arith_eval(e), None),
                Inst::Add(l, r) => inst_value(i, self.arith_eval(l), self.arith_eval(r)),
                Inst::Sub(l, r) => inst_value(i, self.arith_eval(l), self.arith_eval(r)),
                Inst::Mul(l, r) => inst_value(i, self.arith_eval(l), self.arith_eval(r)),
                Inst::Div(l, r) => inst_value(i, self.arith_eval(l), self.arith_eval(r)),
                Inst::Mod(l, r) => inst_value(i, self.arith_eval(l), self.arith_eval(r)),
                _ => None,
            },
    {
        reveal_with_fuel(Runtime::arith_eval, 1);
        reveal_with_fuel(Runtime::arith_eval_inst, 1);
    }

    /// What `arith_outputs` is: the outputs of all lines but the last, then the last line's
    /// text where it is not empty.
    pub proof fn lemma_arith_outputs_def(&self, ast: Seq<Inst>)
        ensures
            ast.len() == 0 ==> self.arith_outputs(ast) == Some(Seq::<Seq<char>>::empty()),
            ast.len() > 0 ==> self.arith_outputs(ast) == match self.arith_outputs(ast.drop_last()) {
                Some(p) => match self.arith_eval_inst(ast.last()) {
                    Some(v) => if crate::var::is_displayable(v) && usize::MAX == u64::MAX {
                        let t = crate::var::display_text(v, self.settings().precision as nat);
                        Some(if t.len() == 0 { p } else { p.push(t) })
                    } else {
                        None
                    },
                    None => None,
                },
                None => None,
            },
    {
        reveal_with_fuel(Runtime::arith_outputs, 1);
    }

    /// The cell the builtin scope binds a name to.
    pub closed spec fn builtin_var(&self, n: Seq<char>) -> Option<usize> {
        self.builtin.var_of(n)
    }

    /// What `prog_outputs` is: the lines before the last, then the last line's step and text.
    pub proof fn lemma_prog_outputs_def(&self, ast: Seq<Inst>)
        ensures
            ast.len() == 0 ==> self.prog_outputs(ast) == Some((Map::<usize, (VarType, Seq<u8>)>::empty(), Map::<Seq<char>, (VarType, Seq<u8>)>::empty(), Seq::<Seq<char>>::empty())),
            ast.len() > 0 ==> self.prog_outputs(ast) == match self.prog_outputs(ast.drop_last()) {
                None => None,
                Some(st) => match self.line_step(st.0, st.1, ast.last()) {
                    Some(x) => if crate::var::is_displayable(x.2) && usize::MAX == u64::MAX {
                        let t = crate::var::display_text(x.2, self.settings().precision as nat);
                        Some((x.0, x.1, if x.3 && t.len() > 0 { st.2.push(t) } else { st.2 }))
                    } else {
                        None
                    },
                    None => None,
                },
            },
    {
        reveal_with_fuel(Runtime::prog_outputs, 1);
    }

    /// What `line_step` is: an assignment evaluates its right side, is refused for a builtin
    /// constant, and takes the writes of `assign_step`; another line evaluates.
    pub proof fn lemma_line_step_def(&self, ov: Map<usize, (VarType, Seq<u8>)>, nb: Map<Seq<char>, (VarType, Seq<u8>)>, i: Inst)
        ensures
            self.line_step(ov, nb, i) == match i {
                Inst::Assign(Expr::Var(n), rhs) => match self.ov_eval(ov, nb, rhs) {
                    Some(v) => if self.builtin_var(n@) is Some {
                        None
                    } else {
                        let s2 = self.assign_step(ov, nb, n@, v);
                        Some((s2.0, s2.1, v, self.settings().print_set_inst == 1))
                    },
                    None => None,
                },
                _ => match self.ov_eval_inst(ov, nb, i) {
                    Some(v) => Some((ov, nb, v, true)),
                    None => None,
                },
            },
    {
    }

    /// What `ov_eval` is, case by case: with nothing written and nothing added it is `arith_eval`.
    pub proof fn lemma_ov_eval_def(&self, ov: Map<usize, (VarType, Seq<u8>)>, nb: Map<Seq<char>, (VarType, Seq<u8>)>, e: Expr)
        requires
            self.wf(),
        ensures
            self.ov_eval(ov, nb, e) == match e {
                Expr::Var(n) => if nb.contains_key(n@) {
                    Some(nb[n@])
                } else {
                    match self.var_cell(n@) {
                        Some(h) => Some(if ov.contains_key(h) { ov[h] } else { self.cell_value(h) }),
                        None => None,
                    }
                },
                Expr::Number(d) => match self.builtin_var(d@) {
                    Some(h) => Some(if ov.contains_key(h) { ov[h] } else { self.cell_value(h) }),
                    None => literal_value(vstd::utf8::encode_utf8(d@)),
                },
                Expr::Inst(i) => self.ov_eval_inst(ov, nb, *i),
                _ => None,
            },
            arith_expr(e) ==> self.ov_eval(Map::empty(), Map::empty(), e) == self.arith_eval(e),
    {
        reveal_with_fuel(Runtime::ov_eval, 1);
        reveal_with_fuel(Runtime::ov_eval_inst, 1);
        if arith_expr(e) {
            self.lemma_overlay_refl();
            Self::lemma_overlay_eval(self, self, Map::empty(), Map::empty(), e);
        }
    }

    /// What `assign_step` is: a variable the program added takes the value, one this state
    /// reads has its cell written, and any other is added.
    pub proof fn lemma_assign_step_def(&self, ov: Map<usize, (VarType, Seq<u8>)>, nb: Map<Seq<char>, (VarType, Seq<u8>)>, n: Seq<char>, v: (VarType, Seq<u8>))
        ensures
            self.assign_step(ov, nb, n, v) == (if nb.contains_key(n) {
                (ov, nb.insert(n, v))
            } else {
                match self.var_cell(n) {
                    Some(g) => (ov.insert(g, v), nb),
                    None => (ov, nb.insert(n, v)),
                }
            }),
    {
    }

    /// What `call_eval` is, case by case (see `lemma_arith_eval_def`).
    pub proof fn lemma_call_eval_def(&self, ps: Seq<Seq<char>>, vs: Seq<(VarType, Seq<u8>)>, e: Expr)
        ensures
            self.call_eval(ps, vs, e) == match e {
                Expr::Var(n) => match param_at(ps, n@) {
                    Some(j) => if j < vs.len() { Some(vs[j]) } else { None },
                    None => None,
                },
                Expr::Number(d) => self.literal_read(d@),
                Expr::Inst(i) => self.call_eval_inst(ps, vs, *i),
                _ => None,
            },
            self.call_eval_inst(ps, vs, Inst::Expr(e)) == self.call_eval(ps, vs, e),
            self.call_eval_inst(ps, vs, Inst::Neg(e)) == inst_value(Inst::Neg(e), self.call_eval(ps, vs, e), None),
            forall|r: Expr| #![auto] {
                &&& self.call_eval_inst(ps, vs, Inst::Add(e, r)) == arith_pair(ArithOp::Add, self.call_eval(ps, vs, e), self.call_eval(ps, vs, r))
                &&& self.call_eval_inst(ps, vs, Inst::Sub(e, r)) == arith_pair(ArithOp::Sub, self.call_eval(ps, vs, e), self.call_eval(ps, vs, r))
                &&& self.call_eval_inst(ps, vs, Inst::Div(e, r)) == arith_pair(ArithOp::Div, self.call_eval(ps, vs, e), self.call_eval(ps, vs, r))
                &&& self.call_eval_inst(ps, vs, Inst::Mod(e, r)) == arith_pair(ArithOp::Rem, self.call_eval(ps, vs, e), self.call_eval(ps, vs, r))
                &&& self.call_eval_inst(ps, vs, Inst::Mul(e, r)) == inst_value(Inst::Mul(e, r), self.call_eval(ps, vs, e), self.call_eval(ps, vs, r))
            },
    {
        reveal_with_fuel(Runtime::call_eval, 1);
        reveal_with_fuel(Runtime::call_eval_inst, 1);
    }

    /// A runtime that overlays `old` evaluates arithmetic as `ov_eval` says.
    proof fn lemma_overlay_eval(a: &Self, old: &Self, ov: Map<usize, (VarType, Seq<u8>)>, nb: Map<Seq<char>, (VarType, Seq<u8>)>, e: Expr)
        requires
            old.wf(),
            a.overlays(old, ov, nb),
            arith_expr(e),
        ensures
            a.arith_eval(e) == old.ov_eval(ov, nb, e),
        decreases e,
    {
        reveal_with_fuel(Runtime::arith_eval, 1);
        reveal_with_fuel(Runtime::arith_eval_inst, 1);
        reveal_with_fuel(Runtime::ov_eval, 1);
        reveal_with_fuel(Runtime::ov_eval_inst, 1);
        match e {
            Expr::Var(n) => {
                lemma_var_search_below(old.locals@, old.locals@.len() - 1, None, n@, old.cells@.len(), old.funs@.len());
                crate::scope::lemma_table_get_below(old.builtin.var_table@, n@, old.cells@.len());
                if !nb.contains_key(n@) {
                    assert(a.var_cell(n@) == old.var_cell(n@));
                    match old.var_cell(n@) {
                        Some(h) => { assert(a.cells@[h as int]@ == (if ov.contains_key(h) { ov[h] } else { old.cells@[h as int]@ })); },
                        None => {},
                    }
                } else {
                    assert(a.var_cell(n@) is Some);
                }
            },
            Expr::Number(d) => {
                crate::scope::lemma_table_get_below(old.builtin.var_table@, d@, old.cells@.len());
                assert(a.builtin.var_of(d@) == old.builtin.var_of(d@) || old.builtin.var_of(d@) is None);
                match old.builtin.var_of(d@) {
                    Some(h) => { assert(a.cells@[h as int]@ == (if ov.contains_key(h) { ov[h] } else { old.cells@[h as int]@ })); },
                    None => {},
                }
            },
            Expr::Inst(i) => { Self::lemma_overlay_eval_inst(a, old, ov, nb, *i); },
            _ => {},
        }
    }

    proof fn lemma_overlay_eval_inst(a: &Self, old: &Self, ov: Map<usize, (VarType, Seq<u8>)>, nb: Map<Seq<char>, (VarType, Seq<u8>)>, i: Inst)
        requires
            old.wf(),
            a.overlays(old, ov, nb),
            arith_inst(i),
        ensures
            a.arith_eval_inst(i) == old.ov_eval_inst(ov, nb, i),
        decreases i,
    {
        reveal_with_fuel(Runtime::arith_eval, 1);
        reveal_with_fuel(Runtime::arith_eval_inst, 1);
        reveal_with_fuel(Runtime::ov_eval, 1);
        reveal_with_fuel(Runtime::ov_eval_inst, 1);
        match i {
            Inst::Expr(x) => { Self::lemma_overlay_eval(a, old, ov, nb, x); },
            Inst::Neg(x) => { Self::lemma_overlay_eval(a, old, ov, nb, x); },
            Inst::Add(l, r) => { Self::lemma_overlay_eval(a, old, ov, nb, l); Self::lemma_overlay_eval(a, old, ov, nb, r); },
            Inst::Sub(l, r) => { Self::lemma_overlay_eval(a, old, ov, nb, l); Self::lemma_overlay_eval(a, old, ov, nb, r); },
            Inst::Mul(l, r) => { Self::lemma_overlay_eval(a, old, ov, nb, l); Self::lemma_overlay_eval(a, old, ov, nb, r); },
            Inst::Div(l, r) => { Self::lemma_overlay_eval(a, old, ov, nb, l); Self::lemma_overlay_eval(a, old, ov, nb, r); },
            Inst::Mod(l, r) => { Self::lemma_overlay_eval(a, old, ov, nb, l); Self::lemma_overlay_eval(a, old, ov, nb, r); },
            _ => {},
        }
    }

    /// Reading steps keep an overlay.
    proof fn lemma_overlay_read(b: &Self, a: &Self, old: &Self, ov: Map<usize, (VarType, Seq<u8>)>, nb: Map<Seq<char>, (VarType, Seq<u8>)>)
        requires
            a.overlays(old, ov, nb),
            b.read_since(a),
        ensures
            b.overlays(old, ov, nb),
    {
        assert forall|m: Seq<char>| literal_value(vstd::utf8::encode_utf8(m)) is None implies #[trigger] b.var_cell(m) == a.var_cell(m) by {
            assert(b.builtin.var_of(m) == a.builtin.var_of(m));
        }
        assert forall|i: usize| (i as int) < old.cells@.len() implies #[trigger] b.cells@[i as int]@
            == (if ov.contains_key(i) { ov[i] } else { old.cells@[i as int]@ }) by {
            assert(b.cells@[i as int]@ == a.cells@[i as int]@);
        }
        assert forall|m: Seq<char>| literal_value(vstd::utf8::encode_utf8(m)) is None implies (if nb.contains_key(m) {
                #[trigger] b.var_cell(m) matches Some(c) && old.cells@.len() <= c < b.cells@.len() && b.cells@[c as int]@ == nb[m]
            } else {
                b.var_cell(m) == old.var_cell(m)
            }) by {
            assert(b.var_cell(m) == a.var_cell(m));
            if nb.contains_key(m) {
                let c = a.var_cell(m)->0;
                assert(b.cells@[c as int]@ == a.cells@[c as int]@);
            }
        }
        assert forall|m1: Seq<char>, m2: Seq<char>| nb.contains_key(m1) && nb.contains_key(m2) && m1 != m2
            implies #[trigger] b.var_cell(m1) != #[trigger] b.var_cell(m2) by {
            assert(b.var_cell(m1) == a.var_cell(m1));
            assert(b.var_cell(m2) == a.var_cell(m2));
        }
        assert forall|m: Seq<char>| #[trigger] b.builtin.var_of(m) == old.builtin.var_of(m) || {
            &&& old.builtin.var_of(m) is None
            &&& b.builtin.var_of(m) matches Some(c) && old.cells@.len() <= c < b.cells@.len()
                && literal_value(vstd::utf8::encode_utf8(m)) == Some(b.cells@[c as int]@)
                && (forall|k: Seq<char>| nb.contains_key(k) ==> #[trigger] b.var_cell(k) != Some(c))
        } by {
            if b.builtin.var_of(m) != old.builtin.var_of(m) {
                let c = b.builtin.var_of(m)->0;
                if b.builtin.var_of(m) == a.builtin.var_of(m) {
                    assert(b.cells@[c as int]@ == a.cells@[c as int]@);
                    assert forall|k: Seq<char>| nb.contains_key(k) implies #[trigger] b.var_cell(k) != Some(c) by {
                        assert(b.var_cell(k) == a.var_cell(k));
                    }
                } else {
                    assert(a.builtin.var_of(m) is None);
                    assert forall|k: Seq<char>| nb.contains_key(k) implies #[trigger] b.var_cell(k) != Some(c) by {
                        assert(b.var_cell(k) == a.var_cell(k));
                    }
                }
            }
        }
    }

    /// The writes and added variables after assigning `v` to `n` (see `overlays`): a variable
    /// the program added takes the value, an existing one has its cell written, and a new one
    /// is added.
    pub closed spec fn assign_step(&self, ov: Map<usize, (VarType, Seq<u8>)>, nb: Map<Seq<char>, (VarType, Seq<u8>)>, n: Seq<char>, v: (VarType, Seq<u8>))
        -> (Map<usize, (VarType, Seq<u8>)>, Map<Seq<char>, (VarType, Seq<u8>)>) {
        if nb.contains_key(n) {
            (ov, nb.insert(n, v))
        } else {
            match self.var_cell(n) {
                Some(g) => (ov.insert(g, v), nb),
                None => (ov, nb.insert(n, v)),
            }
        }
    }

    /// An assignment keeps an overlay, with the assignment's writes added.
    proof fn lemma_overlay_assign(b: &Self, a: &Self, old: &Self, ov: Map<usize, (VarType, Seq<u8>)>, nb: Map<Seq<char>, (VarType, Seq<u8>)>,
        n: Seq<char>, h: usize, v: (VarType, Seq<u8>))
        requires
            old.wf(),
            a.overlays(old, ov, nb),
            b.assigned(a, n, h),
            b.cells@[h as int]@ == v,
            literal_value(vstd::utf8::encode_utf8(n)) is None,
            a.builtin.var_of(n) is None,
        ensures
            b.overlays(old, old.assign_step(ov, nb, n, v).0, old.assign_step(ov, nb, n, v).1),
    {
        let ov2 = old.assign_step(ov, nb, n, v).0;
        let nb2 = old.assign_step(ov, nb, n, v).1;
        lemma_var_search_below(old.locals@, old.locals@.len() - 1, None, n, old.cells@.len(), old.funs@.len());
        crate::scope::lemma_table_get_below(old.builtin.var_table@, n, old.cells@.len());
        assert(old.builtin.var_of(n) is None) by {
            assert(a.builtin.var_of(n) == old.builtin.var_of(n) || old.builtin.var_of(n) is None);
        }
        // the cell written is an old one exactly where ov grows, and new or added otherwise
        if nb.contains_key(n) {
            assert(a.var_cell(n) is Some);
            assert(h == a.var_cell(n)->0);
            assert(h >= old.cells@.len());
        } else if old.var_cell(n) is Some {
            assert(a.var_cell(n) == old.var_cell(n));
            assert(h == old.var_cell(n)->0);
            assert(h < old.cells@.len());
        } else {
            assert(a.var_cell(n) is None);
            assert(h >= a.cells@.len());
        }
        assert forall|hh: usize| #[trigger] ov2.contains_key(hh) implies hh < old.cells@.len() by {
            if ov.contains_key(hh) {
            }
        }
        assert forall|i: usize| (i as int) < old.cells@.len() implies #[trigger] b.cells@[i as int]@
            == (if ov2.contains_key(i) { ov2[i] } else { old.cells@[i as int]@ }) by {
            if nb.contains_key(n) {
                assert(h >= old.cells@.len());
                assert(ov2 == ov);
                assert(b.cells@[i as int]@ == a.cells@[i as int]@);
            } else if old.var_cell(n) is Some {
                assert(h == old.var_cell(n)->0);
                assert(ov2 == ov.insert(h, v));
                if i != h {
                    assert(b.cells@[i as int]@ == a.cells@[i as int]@);
                }
            } else {
                assert(h >= old.cells@.len());
                assert(ov2 == ov);
                assert(b.cells@[i as int]@ == a.cells@[i as int]@);
            }
        }
        assert forall|m: Seq<char>| literal_value(vstd::utf8::encode_utf8(m)) is None && m != n implies #[trigger] b.var_cell(m) == a.var_cell(m) by {}
        assert forall|m: Seq<char>| literal_value(vstd::utf8::encode_utf8(m)) is None implies (if nb2.contains_key(m) {
                #[trigger] b.var_cell(m) matches Some(c) && old.cells@.len() <= c < b.cells@.len() && b.cells@[c as int]@ == nb2[m]
            } else {
                b.var_cell(m) == old.var_cell(m)
            }) by {
            if m != n {
                assert(b.var_cell(m) == a.var_cell(m));
                if nb.contains_key(m) {
                    let c = a.var_cell(m)->0;
                    if nb.contains_key(n) {
                        assert(a.var_cell(m) != a.var_cell(n));
                    }
                    assert(c != h);
                    assert(b.cells@[c as int]@ == a.cells@[c as int]@);
                }
            }
        }
        assert forall|m1: Seq<char>, m2: Seq<char>| nb2.contains_key(m1) && nb2.contains_key(m2) && m1 != m2
            implies #[trigger] b.var_cell(m1) != #[trigger] b.var_cell(m2) by {
            if m1 != n && m2 != n {
                assert(b.var_cell(m1) == a.var_cell(m1));
                assert(b.var_cell(m2) == a.var_cell(m2));
            } else if m1 == n {
                assert(b.var_cell(m2) == a.var_cell(m2));
            } else {
                assert(b.var_cell(m1) == a.var_cell(m1));
            }
        }
        assert forall|m: Seq<char>| #[trigger] b.builtin.var_of(m) == old.builtin.var_of(m) || {
            &&& old.builtin.var_of(m) is None
            &&& b.builtin.var_of(m) matches Some(c) && old.cells@.len() <= c < b.cells@.len()
                && literal_value(vstd::utf8::encode_utf8(m)) == Some(b.cells@[c as int]@)
                && (forall|k: Seq<char>| nb2.contains_key(k) ==> #[trigger] b.var_cell(k) != Some(c))
        } by {
            if b.builtin.var_of(m) != old.builtin.var_of(m) {
                let c = b.builtin.var_of(m)->0;
                if b.builtin.var_of(m) == a.builtin.var_of(m) {
                    assert(c != h);
                    assert(b.cells@[c as int]@ == a.cells@[c as int]@);
                } else {
                    assert(a.builtin.var_of(m) is None);
                }
                assert forall|k: Seq<char>| nb2.contains_key(k) implies #[trigger] b.var_cell(k) != Some(c) by {
                    if k != n {
                        assert(b.var_cell(k) == a.var_cell(k));
                    }
                }
            }
        }
    }

    /// One line of a plain program (see `plain_line`) run over the writes `ov` and added
    /// variables `nb`: the writes and variables after it, its value, and whether it is printed
    /// (an assignment only where assignments are printed); `None` where it fails.
    pub closed spec fn line_step(&self, ov: Map<usize, (VarType, Seq<u8>)>, nb: Map<Seq<char>, (VarType, Seq<u8>)>, i: Inst)
        -> Option<(Map<usize, (VarType, Seq<u8>)>, Map<Seq<char>, (VarType, Seq<u8>)>, (VarType, Seq<u8>), bool)> {
        match i {
            Inst::Assign(Expr::Var(n), rhs) => match self.ov_eval(ov, nb, rhs) {
                Some(v) => if self.builtin.var_of(n@) is Some {
                    None
                } else {
                    let s2 = self.assign_step(ov, nb, n@, v);
                    Some((s2.0, s2.1, v, self.env.print_set_inst == 1))
                },
                None => None,
            },
            _ => match self.ov_eval_inst(ov, nb, i) {
                Some(v) => Some((ov, nb, v, true)),
                None => None,
            },
        }
    }

    /// What a program of plain lines prints when run line by line from this state, with the
    /// writes and variables it leaves: each printed line's value shown; `None` where a line
    /// fails or has a value that cannot be shown.
    #[verifier::opaque]
    pub closed spec fn prog_outputs(&self, ast: Seq<Inst>)
        -> Option<(Map<usize, (VarType, Seq<u8>)>, Map<Seq<char>, (VarType, Seq<u8>)>, Seq<Seq<char>>)>
        decreases ast.len(),
    {
        if ast.len() == 0 {
            Some((Map::empty(), Map::empty(), Seq::<Seq<char>>::empty()))
        } else {
            match self.prog_outputs(ast.drop_last()) {
                None => None,
                Some(st) => match self.line_step(st.0, st.1, ast.last()) {
                    Some(x) => if crate::var::is_displayable(x.2) && usize::MAX == u64::MAX {
                        let t = crate::var::display_text(x.2, self.env.precision as nat);
                        Some((x.0, x.1, if x.3 && t.len() > 0 { st.2.push(t) } else { st.2 }))
                    } else {
                        None
                    },
                    None => None,
                },
            }
        }
    }

    proof fn lemma_prog_next(&self, ast: Seq<Inst>, k: int)
        requires
            0 <= k < ast.len(),
        ensures
            self.prog_outputs(ast.take(k + 1)) == (match self.prog_outputs(ast.take(k)) {
                None => None,
                Some(st) => match self.line_step(st.0, st.1, ast[k]) {
                    Some(x) => if crate::var::is_displayable(x.2) && usize::MAX == u64::MAX {
                        let t = crate::var::display_text(x.2, self.env.precision as nat);
                        Some((x.0, x.1, if x.3 && t.len() > 0 { st.2.push(t) } else { st.2 }))
                    } else {
                        None
                    },
                    None => None,
                },
            }),
    {
        reveal_with_fuel(Runtime::prog_outputs, 1);
        assert(ast.take(k + 1).drop_last() =~= ast.take(k));
        assert(ast.take(k + 1).last() == ast[k]);
    }

    proof fn lemma_prog_empty(&self, ast: Seq<Inst>)
        ensures
            self.prog_outputs(ast.take(0)) == Some((Map::<usize, (VarType, Seq<u8>)>::empty(), Map::<Seq<char>, (VarType, Seq<u8>)>::empty(), Seq::<Seq<char>>::empty())),
    {
        reveal_with_fuel(Runtime::prog_outputs, 1);
        assert(ast.take(0) =~= Seq::<Inst>::empty());
    }

    proof fn lemma_prog_prefix_none(&self, ast: Seq<Inst>, k: int)
        requires
            0 <= k <= ast.len(),
            self.prog_outputs(ast.take(k)) is None,
        ensures
            self.prog_outputs(ast) is None,
        decreases ast.len() - k,
    {
        if k == ast.len() {
            assert(ast.take(k) =~= ast);
        } else {
            self.lemma_prog_next(ast, k);
            self.lemma_prog_prefix_none(ast, k + 1);
        }
    }

    /// A runtime that overlays `old` is itself, with nothing written.
    proof fn lemma_overlay_refl(&self)
        requires
            self.wf(),
        ensures
            self.overlays(self, Map::empty(), Map::empty()),
    {
    }

    /// A line run from a state that overlays `old`: it succeeds exactly where `line_step`
    /// gives a result, whose value the line's cell holds, and the state after it overlays
    /// `old` with the line's writes.
    proof fn lemma_line_exec(old: &Self, a: &Self, b: &Self, ov: Map<usize, (VarType, Seq<u8>)>, nb: Map<Seq<char>, (VarType, Seq<u8>)>,
        i: Inst, h: usize, ok: bool)
        requires
            old.wf(),
            a.overlays(old, ov, nb),
            plain_line(i),
            arith_inst(i) ==> b.only_read(a) && (ok <==> a.arith_eval_inst(i) is Some)
                && (ok ==> Some(b.cells@[h as int]@) == a.arith_eval_inst(i)),
            i matches Inst::Assign(Expr::Var(n), rhs) ==> (ok <==> a.arith_eval(rhs) is Some && a.builtin.var_of(n@) is None)
                && (ok ==> Some(b.cells@[h as int]@) == a.arith_eval(rhs) && b.assigned(a, n@, h)),
        ensures
            ok <==> old.line_step(ov, nb, i) is Some,
            ok ==> (old.line_step(ov, nb, i) matches Some(r) && r.2 == b.cells@[h as int]@ && b.overlays(old, r.0, r.1)
                && r.3 == (if i is Assign { old.env.print_set_inst == 1 } else { true })),
    {
        match i {
            Inst::Assign(Expr::Var(n), rhs) => {
                Self::lemma_overlay_eval(a, old, ov, nb, rhs);
                assert(a.builtin.var_of(n@) == old.builtin.var_of(n@));
                if ok {
                    let v = b.cells@[h as int]@;
                    Self::lemma_overlay_assign(b, a, old, ov, nb, n@, h, v);
                }
            },
            _ => {
                Self::lemma_overlay_eval_inst(a, old, ov, nb, i);
                if ok {
                    Self::lemma_overlay_read(b, a, old, ov, nb);
                }
            },
        }
    }

    proof fn lemma_only_read_trans(c: &Self, b: &Self, a: &Self)
        requires
            c.only_read(b),
            b.only_read(a),
        ensures
            c.only_read(a),
    {
        Self::lemma_read_since_trans(c, b, a);
    }

    proof fn lemma_read_since_trans(c: &Self, b: &Self, a: &Self)
        requires
            c.read_since(b),
            b.read_since(a),
        ensures
            c.read_since(a),
    {
        assert forall|i: int| 0 <= i < a.cells@.len() implies #[trigger] c.cells@[i]@ == a.cells@[i]@ by {
            assert(c.cells@[i]@ == b.cells@[i]@);
        }
        assert forall|n: Seq<char>| #[trigger] c.builtin.var_of(n) == a.builtin.var_of(n) || {
            &&& a.builtin.var_of(n) is None
            &&& c.builtin.var_of(n) matches Some(h) && a.cells@.len() <= h < c.cells@.len()
                && literal_value(vstd::utf8::encode_utf8(n)) == Some(c.cells@[h as int]@)
        } by {
            assert(c.builtin.var_of(n) == b.builtin.var_of(n) || b.builtin.var_of(n) is None);
            assert(b.builtin.var_of(n) == a.builtin.var_of(n) || a.builtin.var_of(n) is None);
            if c.builtin.var_of(n) != b.builtin.var_of(n) {
            } else if b.builtin.var_of(n) != a.builtin.var_of(n) {
                let h = b.builtin.var_of(n)->0;
                assert(c.cells@[h as int]@ == b.cells@[h as int]@);
            }
        }
    }

    proof fn lemma_pushed_only_read(&self, old: &Self)
        requires
            self.pushed_cell(old),
        ensures
            self.only_read(old),
    {
    }

    /// What a program of arithmetic instructions prints when each runs in this state (they
    /// only read, so each sees the same values): the nonempty texts of their values, in order;
    /// `None` where one fails or has a value that cannot be shown.
    #[verifier::opaque]
    pub closed spec fn arith_outputs(&self, ast: Seq<Inst>) -> Option<Seq<Seq<char>>>
        decreases ast.len(),
    {
        if ast.len() == 0 {
            Some(Seq::<Seq<char>>::empty())
        } else {
            match self.arith_outputs(ast.drop_last()) {
                Some(p) => match self.arith_eval_inst(ast.last()) {
                    Some(v) => if crate::var::is_displayable(v) && usize::MAX == u64::MAX {
                        let t = crate::var::display_text(v, self.env.precision as nat);
                        Some(if t.len() == 0 { p } else { p.push(t) })
                    } else {
                        None
                    },
                    None => None,
                },
                None => None,
            }
        }
    }

    proof fn lemma_outputs_prefix_none(&self, ast: Seq<Inst>, k: int)
        requires
            0 <= k <= ast.len(),
            self.arith_outputs(ast.take(k)) is None,
        ensures
            self.arith_outputs(ast) is None,
        decreases ast.len() - k,
    {
        reveal_with_fuel(Runtime::arith_outputs, 1);
        if k == ast.len() {
            assert(ast.take(k) =~= ast);
        } else {
            assert(ast.take(k + 1).drop_last() =~= ast.take(k));
            self.lemma_outputs_prefix_none(ast, k + 1);
        }
    }

    /// Two reading steps in a row, the second after the left operand ran: together they only
    /// read, the right operand evaluates as it did at the start, and the left operand's cell is kept.
    proof fn lemma_arith_step(&self, s1: &Self, s0: &Self, l: Expr, r: Expr, a: int)
        requires
            s0.wf(),
            arith_expr(l) && arith_expr(r) ==> s1.only_read(s0) && self.only_read(s1),
        ensures
            arith_expr(l) && arith_expr(r) ==> self.only_read(s0) && s1.arith_eval(r) == s0.arith_eval(r)
                && (0 <= a < s1.cells@.len() ==> self.cells@[a]@ == s1.cells@[a]@),
    {
        if arith_expr(l) && arith_expr(r) {
            Self::lemma_only_read_trans(self, s1, s0);
            Self::lemma_read_keeps_eval(s1, s0, r);
        }
    }

    /// Reading steps do not change what an arithmetic expression evaluates to.
    proof fn lemma_read_keeps_eval(mid: &Self, old: &Self, e: Expr)
        requires
            old.wf(),
            mid.read_since(old),
            arith_expr(e),
        ensures
            mid.arith_eval(e) == old.arith_eval(e),
        decreases e,
    {
        reveal_with_fuel(Runtime::arith_eval, 1);
        reveal_with_fuel(Runtime::arith_eval_inst, 1);
        match e {
            Expr::Var(n) => {
                lemma_var_search_below(old.locals@, old.locals@.len() - 1, None, n@, old.cells@.len(), old.funs@.len());
                crate::scope::lemma_table_get_below(old.builtin.var_table@, n@, old.cells@.len());
                assert(mid.builtin.var_of(n@) == old.builtin.var_of(n@) || old.builtin.var_of(n@) is None);
                match old.var_cell(n@) {
                    Some(h) => { assert(mid.cells@[h as int]@ == old.cells@[h as int]@); },
                    None => {},
                }
            },
            Expr::Number(d) => {
                crate::scope::lemma_table_get_below(old.builtin.var_table@, d@, old.cells@.len());
                assert(mid.builtin.var_of(d@) == old.builtin.var_of(d@) || old.builtin.var_of(d@) is None);
                match old.builtin.var_of(d@) {
                    Some(h) => { assert(mid.cells@[h as int]@ == old.cells@[h as int]@); },
                    None => {},
                }
            },
            Expr::Inst(i) => {
                Self::lemma_read_keeps_eval_inst(mid, old, *i);
            },
            _ => {},
        }
    }

    /// Reading steps do not change what an arithmetic instruction evaluates to.
    proof fn lemma_read_keeps_eval_inst(mid: &Self, old: &Self, i: Inst)
        requires
            old.wf(),
            mid.read_since(old),
            arith_inst(i),
        ensures
            mid.arith_eval_inst(i) == old.arith_eval_inst(i),
        decreases i,
    {
        reveal_with_fuel(Runtime::arith_eval, 1);
        reveal_with_fuel(Runtime::arith_eval_inst, 1);
        match i {
            Inst::Expr(e) => { Self::lemma_read_keeps_eval(mid, old, e); },
            Inst::Neg(e) => { Self::lemma_read_keeps_eval(mid, old, e); },
            Inst::Add(l, r) | Inst::Sub(l, r) | Inst::Mul(l, r) | Inst::Div(l, r) | Inst::Mod(l, r) => {
                Self::lemma_read_keeps_eval(mid, old, l);
                Self::lemma_read_keeps_eval(mid, old, r);
            },
            _ => {},
        }
    }

    /// The lines of output so far.
    pub fn output(&self) -> (r: &Vec<String>)
        ensures
            r@ == self.output_lines(),
    {
        &self.output
    }

    /// The settings.
    pub fn env(&self) -> (r: Env)
        ensures
            r == self.settings(),
    {
        self.env
    }

    /// Appends text to the unfinished output line.
    pub fn print(&mut self, string: &str)
        ensures
            final(self).pending() == old(self).pending() + string@,
            final(self).output_lines() == old(self).output_lines(),
            final(self).wf() == old(self).wf(),
            final(self).same_except_output(old(self)),
            final(self).work_dir() == old(self).work_dir(),
            final(self).scope_counter() == old(self).scope_counter(),
    {
        self.out_buffer.append(string);
    }

    /// Ends the unfinished output line with `string` and starts a new one.
    pub fn println(&mut self, string: &str)
        ensures
            final(self).pending() == Seq::<char>::empty(),
            final(self).output_lines().len() == old(self).output_lines().len() + 1,
            final(self).output_lines().last()@ == old(self).pending() + string@,
            final(self).output_lines().drop_last() == old(self).output_lines(),
            final(self).wf() == old(self).wf(),
            final(self).same_except_output(old(self)),
            final(self).work_dir() == old(self).work_dir(),
            final(self).scope_counter() == old(self).scope_counter(),
    {
        self.out_buffer.append(string);
        let mut line = String::new();
        std::mem::swap(&mut line, &mut self.out_buffer);
        self.output.push(line);
        proof { assert(self.output@.drop_last() =~= old(self).output@); }
    }

    /// The next scope id.
    fn next_scope_id(&mut self, line: usize) -> (r: Result<usize, RuntimeError>)
        ensures
            r is Ok <==> old(self).max_scope_id != usize::MAX,
            r matches Ok(id) ==> id == old(self).max_scope_id && final(self).max_scope_id == id + 1,
            r matches Err(e) ==> e.line == line && final(self).max_scope_id == old(self).max_scope_id,
            final(self).cells == old(self).cells,
            final(self).funs == old(self).funs,
            final(self).module == old(self).module,
            final(self).builtin == old(self).builtin,
            final(self).locals == old(self).locals,
            final(self).recur == old(self).recur,
            final(self).output == old(self).output,
            final(self).env == old(self).env,
            final(self).out_buffer == old(self).out_buffer,
    {
        let id = self.max_scope_id;
        if id == usize::MAX {
            return Err(internal(line));
        }
        self.max_scope_id = id + 1;
        Ok(id)
    }

    /// The cell of a visible variable (see `var_search`).
    fn find_var(&self, name: &String) -> (r: Option<usize>)
        requires
            self.wf(),
        ensures
            r == var_search(self.locals@, self.locals@.len() - 1, None, name@),
            r matches Some(h) ==> h < self.cells@.len(),
    {
        proof {
            lemma_var_search_below(self.locals@, self.locals@.len() - 1, None, name@, self.cells@.len(), self.funs@.len());
        }
        let mut i = self.locals.len();
        let mut last: Option<usize> = None;
        while i > 0
            invariant
                i <= self.locals@.len(),
                last matches Some(k) ==> k < self.locals@.len(),
                var_search(self.locals@, self.locals@.len() - 1, None, name@) matches Some(h) ==> h < self.cells@.len(),
                var_search(self.locals@, self.locals@.len() - 1, None, name@) == var_search(
                    self.locals@,
                    i - 1,
                    match last { Some(k) => Some(self.locals@[k as int].name@), None => None },
                    name@,
                ),
            decreases i,
        {
            let s = &self.locals[i - 1];
            let skip = match last {
                Some(k) => self.locals[k].name == s.name,
                None => false,
            };
            if !skip {
                match s.get_var(name) {
                    Some(h) => return Some(h),
                    None => {},
                }
                last = Some(i - 1);
            }
            i = i - 1;
        }
        None
    }

    /// The function a call of `name` reaches: the innermost local one, else the builtin one.
    fn find_fun(&self, name: &String) -> (r: Option<usize>)
        requires
            self.wf(),
        ensures
            r == match fun_search(self.locals@, self.locals@.len() - 1, name@) {
                Some(h) => Some(h),
                None => self.builtin.fun_of(name@),
            },
            r matches Some(h) ==> h < self.funs@.len(),
    {
        proof {
            lemma_fun_search_below(self.locals@, self.locals@.len() - 1, name@, self.cells@.len(), self.funs@.len());
            crate::scope::lemma_table_get_below(self.builtin.fun_table@, name@, self.funs@.len());
        }
        let mut i = self.locals.len();
        while i > 0
            invariant
                i <= self.locals@.len(),
                fun_search(self.locals@, self.locals@.len() - 1, name@) == fun_search(self.locals@, i - 1, name@),
                fun_search(self.locals@, self.locals@.len() - 1, name@) matches Some(h) ==> h < self.funs@.len(),
            decreases i,
        {
            match self.locals[i - 1].get_fun(name) {
                Some(h) => return Some(h),
                None => {},
            }
            i = i - 1;
        }
        self.builtin.get_fun(name)
    }

    /// Stores a value in a new cell.
    fn new_cell(&mut self, v: Var) -> (r: usize)
        requires
            old(self).wf(),
        ensures
            final(self).wf(),
            r == old(self).cells@.len(),
            final(self).cells@ == old(self).cells@.push(v),
            final(self).funs == old(self).funs,
            final(self).module == old(self).module,
            final(self).builtin == old(self).builtin,
            final(self).locals == old(self).locals,
            final(self).recur == old(self).recur,
            final(self).output == old(self).output,
            final(self).env == old(self).env,
            final(self).out_buffer == old(self).out_buffer,
    {
        let h = self.cells.len();
        self.cells.push(v);
        proof {
            let c = old(self).cells@.len();
            let f = self.funs@.len();
            lemma_within_mono(self.builtin, c, f, c + 1, f);
            lemma_scopes_mono(self.locals@, c, f, c + 1, f);
            lemma_scopes_mono(self.recur@, c, f, c + 1, f);
        }
        h
    }
}


impl<F: FloatMath, M: ModSystem> Runtime<F, M> {
    /// Binds a name in the innermost scope to an existing cell.
    fn bind_top(&mut self, name: String, h: usize)
        requires
            old(self).wf(),
            h < old(self).cells@.len(),
        ensures
            final(self).wf(),
            final(self).cells == old(self).cells,
            final(self).funs == old(self).funs,
            final(self).module == old(self).module,
            final(self).output == old(self).output,
            final(self).frame() == old(self).frame(),
            final(self).locals@.len() == old(self).locals@.len(),
            final(self).env == old(self).env,
            final(self).locals@.last().var_of(name@) == Some(h),
            final(self).locals@.last().id == old(self).locals@.last().id,
            final(self).locals@.last().name == old(self).locals@.last().name,
            forall|k: Seq<char>| k != name@ ==> final(self).locals@.last().var_of(k) == old(self).locals@.last().var_of(k),
            final(self).locals@.last().fun_table@ == old(self).locals@.last().fun_table@,
            final(self).builtin == old(self).builtin,
            final(self).locals@[0].name == old(self).locals@[0].name,
            forall|i: int| 0 <= i < old(self).locals@.len() - 1 ==> final(self).locals@[i] == old(self).locals@[i],
            final(self).out_buffer == old(self).out_buffer,
            final(self).recur == old(self).recur,
    {
        let ghost old_locals = self.locals@;
        let mut top = self.locals.pop().unwrap();
        proof { assert(old_locals.last().within(self.cells@.len(), self.funs@.len())); }
        top.add_ref_var(name, h);
        self.locals.push(top);
        proof {
            assert(self.locals@.drop_last() =~= old_locals.drop_last());
            assert forall|i: int| 0 <= i < self.locals@.len() implies #[trigger] self.locals@[i].within(self.cells@.len(), self.funs@.len()) by {
                if i < self.locals@.len() - 1 {
                    assert(self.locals@[i] == old_locals[i]);
                }
            }
            assert forall|i: int| 0 <= i < self.locals@.len() implies #[trigger] self.locals@[i].stack_depth <= 0x1_0000_0000 by {
                if i < self.locals@.len() - 1 {
                    assert(self.locals@[i] == old_locals[i]);
                } else {
                    assert(old_locals[i].stack_depth <= 0x1_0000_0000);
                }
            }
            assert(depths(self.locals@) =~= depths(old_locals));
        }
    }

    /// Binds a name in the innermost scope to a new cell holding `v`.
    fn add_top_var(&mut self, name: String, v: Var) -> (r: usize)
        requires
            old(self).wf(),
        ensures
            final(self).wf(),
            final(self).grows_from(old(self)),
            r < final(self).cells@.len(),
            final(self).cells@[r as int] == v,
            final(self).output == old(self).output,
            final(self).frame() == old(self).frame(),
            final(self).locals@.len() == old(self).locals@.len(),
            final(self).env == old(self).env,
            final(self).builtin == old(self).builtin,
            final(self).var_cell(name@) == Some(r),
            r == old(self).cells@.len(),
            final(self).cells@ == old(self).cells@.push(v),
            forall|m: Seq<char>| m != name@ ==> #[trigger] final(self).var_cell(m) == old(self).var_cell(m),
            final(self).funs == old(self).funs,
            final(self).out_buffer == old(self).out_buffer,
    {
        let h = self.new_cell(v);
        let ghost s1 = *self;
        let ghost nm = name@;
        self.bind_top(name, h);
        proof {
            assert forall|m: Seq<char>| m != nm implies #[trigger] self.var_cell(m) == old(self).var_cell(m) by {
                assert forall|j: int| 0 <= j < self.locals@.len() implies self.locals@[j].name == s1.locals@[j].name
                    && (#[trigger] self.locals@[j]).var_of(m) == s1.locals@[j].var_of(m) by {
                    if j < self.locals@.len() - 1 {
                        assert(self.locals@[j] == s1.locals@[j]);
                    }
                }
                lemma_var_search_same(self.locals@, s1.locals@, self.locals@.len() - 1, None, m);
            }
        }
        h
    }

    /// Binds a name in the builtin scope to a new cell holding `v`.
    fn add_builtin_var(&mut self, name: String, v: Var) -> (r: usize)
        requires
            old(self).wf(),
        ensures
            final(self).wf(),
            final(self).grows_from(old(self)),
            r < final(self).cells@.len(),
            final(self).output == old(self).output,
            final(self).locals == old(self).locals,
            final(self).recur == old(self).recur,
            final(self).out_buffer == old(self).out_buffer,
            final(self).env == old(self).env,
            final(self).builtin.var_of(name@) == Some(r),
            forall|k: Seq<char>| k != name@ ==> final(self).builtin.var_of(k) == old(self).builtin.var_of(k),
            final(self).funs == old(self).funs,
            r == old(self).cells@.len(),
            final(self).cells@ == old(self).cells@.push(v),
    {
        let h = self.new_cell(v);
        self.builtin.add_ref_var(name, h);
        h
    }

    /// Binds a name in the builtin scope to a new function of these parameters whose body calls
    /// the builtin of that name.
    fn add_builtin_fun(&mut self, name: &str, params: Vec<String>)
        requires
            old(self).wf(),
        ensures
            final(self).funs@.len() == old(self).funs@.len() + 1,
            forall|i: int| 0 <= i < old(self).funs@.len() ==> final(self).funs@[i] == old(self).funs@[i],
            final(self).funs@.last().para_name@ == params@,
            final(self).funs@.last().data@.len() == 1,
            final(self).funs@.last().data@[0] matches Inst::BultinFnCall(s) && s@ == name@,
            final(self).builtin.fun_of(name@) == Some(old(self).funs@.len() as usize),
            forall|k: Seq<char>| k != name@ ==> final(self).builtin.fun_of(k) == old(self).builtin.fun_of(k),
            final(self).builtin.var_table@ == old(self).builtin.var_table@,
            final(self).cells == old(self).cells,
            final(self).wf(),
            final(self).grows_from(old(self)),
            final(self).output == old(self).output,
            final(self).locals == old(self).locals,
            final(self).recur == old(self).recur,
            final(self).out_buffer == old(self).out_buffer,
            final(self).env == old(self).env,
    {
        let mut fun = Fun::new(params);
        fun.push_inst(Inst::BultinFnCall(String::from_str(name)));
        let ghost f0 = self.funs@.len();
        self.builtin.set_fun(&mut self.funs, String::from_str(name), fun);
        proof {
            let c = self.cells@.len();
            lemma_scopes_mono(self.locals@, c, f0, c, f0 + 1);
            lemma_scopes_mono(self.recur@, c, f0, c, f0 + 1);
        }
    }

    /// Writes a copy of the value of cell `from` into cell `to`.
    fn write_cell(&mut self, to: usize, from: usize)
        requires
            old(self).wf(),
            to < old(self).cells@.len(),
            from < old(self).cells@.len(),
        ensures
            final(self).wf(),
            final(self).cells@.len() == old(self).cells@.len(),
            final(self).cells@[to as int]@ == old(self).cells@[from as int]@,
            forall|i: int| 0 <= i < old(self).cells@.len() && i != to ==> final(self).cells@[i] == old(self).cells@[i],
            final(self).out_buffer == old(self).out_buffer,
            final(self).funs == old(self).funs,
            final(self).module == old(self).module,
            final(self).builtin == old(self).builtin,
            final(self).locals == old(self).locals,
            final(self).recur == old(self).recur,
            final(self).output == old(self).output,
            final(self).env == old(self).env,
    {
        let v = self.cells[from].copy();
        self.cells.set(to, v);
    }

    /// The value of a binary operation on two cells, in a new cell.
    fn operate(&mut self, op: ArithOp, l: usize, r: usize, line: usize) -> (res: Result<usize, RuntimeError>)
        requires
            old(self).wf(),
            l < old(self).cells@.len(),
            r < old(self).cells@.len(),
        ensures
            final(self).wf(),
            final(self).grows_from(old(self)),
            final(self).frame() == old(self).frame(),
            final(self).locals@.len() == old(self).locals@.len(),
            final(self).env == old(self).env,
            res matches Ok(h) ==> h < final(self).cells@.len()
                && final(self).cells@[h as int]@ == crate::var::arith_view(op, old(self).cells@[l as int]@, old(self).cells@[r as int]@),
            ({
                let a = old(self).cells@[l as int]@;
                let b = old(self).cells@[r as int]@;
                &&& res is Ok <==> crate::var::is_number(a) && crate::var::is_number(b) && usize::MAX == u64::MAX
                &&& res matches Ok(h) ==> h == old(self).cells@.len() && final(self).pushed_cell(old(self))
                &&& res is Err ==> *final(self) == *old(self)
                &&& res matches Err(e) ==> e.line == line && e.msg@ == (
                    if a.0 == VarType::Empty || b.0 == VarType::Empty { "using None type for operand or argument"@ }
                    else if a.0 == VarType::Sequence || b.0 == VarType::Sequence {
                        "variable or expression is not number, cannot be an operand or a argument of math functions"@ }
                    else { "number out of range for arithmetic"@ })
            }),
    {
        if self.cells[l].get_type() == VarType::Empty || self.cells[r].get_type() == VarType::Empty {
            return Err(error(line, String::from_str("using None type for operand or argument")));
        }
        if self.cells[l].get_type() == VarType::Sequence || self.cells[r].get_type() == VarType::Sequence {
            return Err(error(line, String::from_str(
                "variable or expression is not number, cannot be an operand or a argument of math functions")));
        }
        if !(usize::MAX as u64 == u64::MAX) || !self.cells[l].is_arith_number() || !self.cells[r].is_arith_number() {
            return Err(error(line, String::from_str("number out of range for arithmetic")));
        }
        let v = self.cells[l].arith(&self.cells[r], op);
        let h = self.new_cell(v);
        Ok(h)
    }
}


impl<F: FloatMath, M: ModSystem> Runtime<F, M> {
    /// Moves the elements of the sequence in cell `cell` from the scope `from` to the end of the
    /// heap of the innermost scope (whose place in the stack is `to_index`), nested sequences
    /// after it, and points the handle in `cell` at the new place.
    fn move_sequence(&mut self, from: &Scope, to_index: usize, cell: usize, line: usize, fuel: usize) -> (res: Result<(), RuntimeError>)
        requires
            old(self).wf(),
            from.within(old(self).cells@.len(), old(self).funs@.len()),
            cell < old(self).cells@.len(),
        ensures
            final(self).wf(),
            final(self).cells@.len() == old(self).cells@.len(),
            final(self).funs == old(self).funs,
            final(self).module == old(self).module,
            final(self).output == old(self).output,
            final(self).frame() == old(self).frame(),
            final(self).locals@.len() == old(self).locals@.len(),
            final(self).env == old(self).env,
            res matches Err(e) ==> e.line == line,
            forall|i: int| 0 <= i < old(self).locals@.len() ==> (#[trigger] final(self).locals@[i]).var_table@ == old(self).locals@[i].var_table@
                && final(self).locals@[i].fun_table@ == old(self).locals@[i].fun_table@
                && final(self).locals@[i].name == old(self).locals@[i].name,
            res is Ok ==> {
                let b = old(self).cells@[cell as int]@.1;
                let start = old(self).locals@.last().heap@.len();
                let n = crate::var::le_u64_at(b, 8) - crate::var::le_u64_at(b, 0);
                final(self).cells@[cell as int]@ == (VarType::Sequence, crate::var::u64_le(start as u64)
                    + crate::var::u64_le((start + n) as u64) + crate::var::u64_le(to_index as u64)
                    + crate::var::u64_le(old(self).locals@.last().id as u64))
            },
        decreases fuel,
    {
        if !self.cells[cell].is_sequence_handle() || !(usize::MAX as u64 == u64::MAX) {
            return Err(internal(line));
        }
        let (s, e) = self.cells[cell].get_boundary();
        if s > e || e > from.heap.len() {
            return Err(internal(line));
        }
        let ghost old_locals = self.locals@;
        let mut top = self.locals.pop().unwrap();
        let to_start = top.heap.len();
        if to_start > usize::MAX - (e - s) {
            self.locals.push(top);
            proof { assert(self.locals@ =~= old_locals); }
            return Err(internal(line));
        }
        let ghost c = self.cells@.len();
        let ghost f = self.funs@.len();
        proof { assert(old_locals.last().within(c, f)); }
        let mut fi = s;
        while fi < e
            invariant
                s <= fi <= e,
                e <= from.heap@.len(),
                top.heap@.len() == to_start + (fi - s),
                to_start + (e - s) <= usize::MAX,
                from.within(c, f),
                top.within(c, f),
                top.stack_depth == old_locals.last().stack_depth,
                top.id == old_locals.last().id,
                top.var_table@ == old_locals.last().var_table@,
                top.fun_table@ == old_locals.last().fun_table@,
                top.name == old_locals.last().name,
            decreases e - fi,
        {
            let h = from.heap[fi];
            top.heap.push(h);
            proof {
                assert forall|i: int| 0 <= i < top.heap@.len() implies #[trigger] top.heap@[i] < c by {
                    if i < top.heap@.len() - 1 {
                        assert(top.heap@.drop_last()[i] == top.heap@[i]);
                    }
                }
            }
            fi = fi + 1;
        }
        let to_id = top.id;
        self.locals.push(top);
        proof {
            assert(self.locals@.drop_last() =~= old_locals.drop_last());
            assert forall|i: int| 0 <= i < self.locals@.len() implies #[trigger] self.locals@[i].within(c, f) by {
                if i < self.locals@.len() - 1 {
                    assert(self.locals@[i] == old_locals[i]);
                }
            }
            assert forall|i: int| 0 <= i < self.locals@.len() implies #[trigger] self.locals@[i].stack_depth <= 0x1_0000_0000 by {
                if i < self.locals@.len() - 1 {
                    assert(self.locals@[i] == old_locals[i]);
                } else {
                    assert(old_locals[i].stack_depth <= 0x1_0000_0000);
                }
            }
            assert(depths(self.locals@) =~= depths(old_locals));
        }
        let mut fi = s;
        while fi < e
            invariant
                self.wf(),
                s <= fi <= e,
                e <= from.heap@.len(),
                from.within(self.cells@.len(), self.funs@.len()),
                cell < self.cells@.len(),
                self.cells@.len() == old(self).cells@.len(),
                self.module == old(self).module,
                self.funs == old(self).funs,
                self.output == old(self).output,
                self.frame() == old(self).frame(),
                self.locals@.len() == old(self).locals@.len(),
                self.env == old(self).env,
                forall|i: int| 0 <= i < old(self).locals@.len() ==> (#[trigger] self.locals@[i]).var_table@ == old(self).locals@[i].var_table@
                    && self.locals@[i].fun_table@ == old(self).locals@[i].fun_table@
                    && self.locals@[i].name == old(self).locals@[i].name,
            decreases e - fi,
        {
            let h = from.heap[fi];
            if self.cells[h].get_type() == VarType::Sequence {
                if fuel == 0 {
                    return Err(internal(line));
                }
                match self.move_sequence(from, to_index, h, line, fuel - 1) {
                    Ok(()) => {},
                    Err(err) => return Err(err),
                }
            }
            fi = fi + 1;
        }
        proof {
            let b = old(self).cells@[cell as int]@.1;
            assert(s as int == crate::var::le_u64_at(b, 0));
            assert(e as int == crate::var::le_u64_at(b, 8));
            assert(to_start == old(self).locals@.last().heap@.len());
            assert(to_id == old(self).locals@.last().id);
        }
        self.cells.set(cell, Var::new_sequence((to_start, to_start + (e - s)), (to_index, to_id)));
        Ok(())
    }

    /// The text of the sequence in cell `cell`: its elements' texts between brackets, separated
    /// by commas (nested sequences alike).
    fn sequence_to_string(&self, cell: usize, line: usize, fuel: usize) -> (res: Result<String, RuntimeError>)
        requires
            self.wf(),
            cell < self.cells@.len(),
        ensures
            ({
                let v = self.cells@[cell as int]@;
                let handle = v.0 == VarType::Sequence && crate::var::is_displayable(v) && usize::MAX == u64::MAX;
                &&& !handle ==> (res matches Err(e) && e.msg@ == "runtime internal error!"@)
                &&& handle && crate::var::le_u64_at(v.1, 8) <= crate::var::le_u64_at(v.1, 0) ==> (res matches Ok(t) && t@ == seq!['[', ']'])
            }),
            res matches Ok(t) ==> t@.len() >= 2 && t@[0] == '[' && t@.last() == ']',
            res matches Err(e) ==> e.line == line,
        decreases fuel,
    {
        proof {
            reveal_strlit("[");
            reveal_strlit("]");
        }
        if !self.cells[cell].is_sequence_handle() || !(usize::MAX as u64 == u64::MAX) {
            return Err(internal(line));
        }
        let (s, e) = self.cells[cell].get_boundary();
        let (sindex, sid) = self.cells[cell].get_scope();
        let mut out = String::from_str("[");
        proof { assert(out@ =~= seq!['[']); }
        let mut i = s;
        while i < e
            invariant
                self.wf(),
                usize::MAX == u64::MAX,
                out@.len() >= 1,
                out@[0] == '[',
                s <= i,
                cell < self.cells@.len(),
                s as int == crate::var::le_u64_at(self.cells@[cell as int]@.1, 0),
                e as int == crate::var::le_u64_at(self.cells@[cell as int]@.1, 8),
                i == s ==> out@ == seq!['['],
                i == s || i <= e,
                self.cells@[cell as int]@.0 == VarType::Sequence && crate::var::is_displayable(self.cells@[cell as int]@),
            decreases e - i,
        {
            if sindex >= self.locals.len() || self.locals[sindex].id != sid {
                return Err(error(line, String::from_str("sequence data out of scope before indexing")));
            }
            proof { assert(self.locals@[sindex as int].within(self.cells@.len(), self.funs@.len())); }
            if i >= self.locals[sindex].heap.len() {
                return Err(internal(line));
            }
            let h = self.locals[sindex].heap[i];
            let text = if self.cells[h].get_type() == VarType::Sequence {
                if fuel == 0 {
                    return Err(internal(line));
                }
                match self.sequence_to_string(h, line, fuel - 1) {
                    Ok(t) => t,
                    Err(err) => return Err(err),
                }
            } else {
                if !self.cells[h].can_display() {
                    return Err(error(line, String::from_str("value cannot be shown")));
                }
                self.cells[h].to_text(self.env.precision as u8)
            };
            if i > s {
                out.append(", ");
            }
            out.append(text.as_str());
            i = i + 1;
        }
        let ghost before = out@;
        out.append("]");
        proof {
            assert(out@ == before + "]"@);
            if s >= e {
                assert(before =~= seq!['[']);
                assert(out@ =~= seq!['[', ']']);
            }
        }
        Ok(out)
    }

    /// Whether two cells hold equal values: the same type and bytes, or sequences whose
    /// elements are equal pairwise (over the shorter length).
    fn var_eq(&self, l: usize, r: usize, line: usize, fuel: usize) -> (res: Result<bool, RuntimeError>)
        requires
            self.wf(),
            l < self.cells@.len(),
            r < self.cells@.len(),
        ensures
            res matches Ok(b) ==> (self.cells@[l as int]@.0 != VarType::Sequence ==> b == (self.cells@[l as int]@ == self.cells@[r as int]@)),
            self.cells@[l as int]@.0 != VarType::Sequence || self.cells@[l as int]@.0 != self.cells@[r as int]@.0 ==> res is Ok,
            self.cells@[l as int]@.0 != self.cells@[r as int]@.0 ==> res == Ok::<bool, RuntimeError>(false),
            res matches Err(e) ==> e.line == line && e.msg@ == "runtime internal error!"@,
        decreases fuel,
    {
        let tl = self.cells[l].get_type();
        if tl != self.cells[r].get_type() {
            return Ok(false);
        }
        if tl != VarType::Sequence {
            let b = bytes_eq(self.cells[l].as_raw_bytes(), self.cells[r].as_raw_bytes());
            return Ok(b);
        }
        if !self.cells[l].is_sequence_handle() || !self.cells[r].is_sequence_handle() || !(usize::MAX as u64 == u64::MAX) {
            return Err(internal(line));
        }
        let (ls, le) = self.cells[l].get_boundary();
        let (rs, re) = self.cells[r].get_boundary();
        let (li, _lid) = self.cells[l].get_scope();
        let (ri, _rid) = self.cells[r].get_scope();
        if li >= self.locals.len() || ri >= self.locals.len() {
            return Err(internal(line));
        }
        proof {
            assert(self.locals@[li as int].within(self.cells@.len(), self.funs@.len()));
            assert(self.locals@[ri as int].within(self.cells@.len(), self.funs@.len()));
        }
        let mut a = ls;
        let mut b = rs;
        while a < le && b < re
            invariant
                self.wf(),
                li < self.locals@.len(),
                ri < self.locals@.len(),
                l < self.cells@.len(),
                r < self.cells@.len(),
                self.cells@[l as int]@.0 == VarType::Sequence,
                self.cells@[r as int]@.0 == VarType::Sequence,
            decreases le - a,
        {
            if a >= self.locals[li].heap.len() || b >= self.locals[ri].heap.len() || fuel == 0 {
                return Err(internal(line));
            }
            proof {
                assert(self.locals@[li as int].within(self.cells@.len(), self.funs@.len()));
                assert(self.locals@[ri as int].within(self.cells@.len(), self.funs@.len()));
            }
            let x = self.locals[li].heap[a];
            let y = self.locals[ri].heap[b];
            match self.var_eq(x, y, line, fuel - 1) {
                Ok(true) => {},
                Ok(false) => return Ok(false),
                Err(err) => return Err(err),
            }
            a = a + 1;
            b = b + 1;
        }
        Ok(true)
    }
}


/// The functions of real numbers the host computes.
pub open spec fn math_name(n: Seq<char>) -> bool {
    n == "sin"@ || n == "cos"@ || n == "tan"@ || n == "asin"@ || n == "acos"@ || n == "atan"@
        || n == "abs"@ || n == "sqrt"@ || n == "ceil"@ || n == "floor"@ || n == "round"@ || n == "exp"@
        || n == "log"@ || n == "log2"@ || n == "ln"@ || n == "trunc"@ || n == "cbrt"@ || n == "sign"@
        || n == "int32"@
}

/// Whether a name is one of the functions of real numbers the host computes (see `math_name`).
fn is_math_name(name: &String) -> (r: bool)
    ensures
        r == math_name(name@),
{
    text_is(name, "sin") || text_is(name, "cos") || text_is(name, "tan") || text_is(name, "asin")
        || text_is(name, "acos") || text_is(name, "atan") || text_is(name, "abs") || text_is(name, "sqrt")
        || text_is(name, "ceil") || text_is(name, "floor") || text_is(name, "round") || text_is(name, "exp")
        || text_is(name, "log") || text_is(name, "log2") || text_is(name, "ln") || text_is(name, "trunc")
        || text_is(name, "cbrt") || text_is(name, "sign") || text_is(name, "int32")
}

impl<F: FloatMath, M: ModSystem> Runtime<F, M> {
    /// The cell of a parameter of the innermost scope.
    fn param(&self, p: &str, line: usize) -> (res: Result<usize, RuntimeError>)
        requires
            self.wf(),
        ensures
            res matches Ok(h) ==> h < self.cells@.len(),
            res is Ok <==> self.locals@.last().var_of(p@) is Some,
            res matches Ok(h) ==> self.locals@.last().var_of(p@) == Some(h),
            res matches Err(e) ==> e.line == line && e.msg@ == "runtime internal error!"@,
    {
        let top = &self.locals[self.locals.len() - 1];
        proof {
            assert(self.locals@[self.locals@.len() - 1].within(self.cells@.len(), self.funs@.len()));
            crate::scope::lemma_table_get_below(top.var_table@, p@, self.cells@.len());
        }
        match top.get_var(&String::from_str(p)) {
            Some(h) => Ok(h),
            None => Err(internal(line)),
        }
    }

    /// The integer of a cell of type `I32` or `I64`, else the name of its type.
    fn int_of(&self, h: usize) -> (res: Result<i64, &'static str>)
        requires
            h < self.cells@.len(),
        ensures
            ({
                let v = self.cells@[h as int]@;
                &&& res is Ok <==> ((v.0 == VarType::I32 && v.1.len() >= 4) || (v.0 == VarType::I64 && v.1.len() >= 8))
                &&& res matches Ok(x) ==> x == crate::var::var_i64(v)
                &&& res matches Err(t) ==> t@ == api_type_text(v.0)
            }),
    {
        let t = self.cells[h].get_type();
        if (t == VarType::I32 && self.cells[h].as_raw_bytes().len() >= 4)
            || (t == VarType::I64 && self.cells[h].as_raw_bytes().len() >= 8) {
            Ok(self.cells[h].as_i64())
        } else {
            Err(api_type_name(t))
        }
    }

    /// The text of a cell of no type.
    fn text_of(&self, h: usize) -> (r: String)
        requires
            h < self.cells@.len(),
            self.cells@[h as int]@.0 == VarType::Empty,
            usize::MAX == u64::MAX,
        ensures
            r@ == crate::var::display_text(self.cells@[h as int]@, 7),
    {
        self.cells[h].to_text(7)
    }

    /// The largest value setting `which` takes: 15 places of precision, 0 or 1 for the two
    /// switches and the index base, any `u32` for the stack depth.
    pub open spec fn env_limit(which: u8) -> u32 {
        if which == 0 { 15 } else if which == 1 { 1 } else if which == 2 { 1 } else if which == 3 { u32::MAX } else { 1 }
    }

    /// The settings with setting `which` replaced by `v`.
    pub open spec fn env_with(e: Env, which: u8, v: u32) -> Env {
        if which == 0 { Env { precision: v, ..e } }
        else if which == 1 { Env { print_set_inst: v, ..e } }
        else if which == 2 { Env { detail_depth: v, ..e } }
        else if which == 3 { Env { max_stack_depth: v, ..e } }
        else { Env { index_base: v, ..e } }
    }

    /// Sets one of the settings from the argument `x` (see the builtin functions `__precision__`,
    /// `__print_set_inst__`, `__detail_depth__`, `__max_stack_depth__` and `__index_base__`).
    fn set_env(&mut self, which: u8, line: usize) -> (res: Result<usize, RuntimeError>)
        requires
            old(self).wf(),
        ensures
            final(self).wf(),
            final(self).grows_from(old(self)),
            final(self).frame() == old(self).frame(),
            final(self).locals@.len() == old(self).locals@.len(),
            res matches Ok(h) ==> h < final(self).cells@.len(),
            ({
                let x = old(self).locals@.last().var_of("x"@);
                let v = old(self).cells@[x->0 as int]@;
                let n = crate::var::var_i64(v);
                &&& res is Ok <==> x is Some && ((v.0 == VarType::I32 && v.1.len() >= 4) || (v.0 == VarType::I64 && v.1.len() >= 8))
                    && 0 <= n <= Self::env_limit(which)
                &&& res matches Ok(h) ==> h == old(self).cells@.len()
                    && final(self).cells@[h as int]@ == (VarType::I64, crate::var::i64_le(n))
                    && final(self).settings() == Self::env_with(old(self).settings(), which, n as u32)
                    && final(self).cells@.len() == old(self).cells@.len() + 1
                &&& res is Err ==> *final(self) == *old(self)
                &&& res matches Err(e) ==> e.line == line
            }),
    {
        let lower = if which == 0 { "precision" } else if which == 1 { "print_set_inst" }
            else if which == 2 { "detail_depth" } else if which == 3 { "max_stack_depth" } else { "index_base" };
        let upper = if which == 0 { "PRECISION" } else if which == 1 { "PRINT_SET_INST" }
            else if which == 2 { "DETAIL_DEPTH" } else if which == 3 { "MAX_STACK_DEPTH" } else { "INDEX_BASE" };
        let limit: u32 = if which == 0 { 15 } else if which == 1 { 1 } else if which == 2 { 1 } else if which == 3 { u32::MAX } else { 1 };
        let x = match self.param("x", line) {
            Ok(h) => h,
            Err(err) => return Err(err),
        };
        let v = match self.int_of(x) {
            Ok(v) => v,
            Err(t) => {
                let m = text3("expect arguemnt of ", lower, "(x) to be a integer but got ").concat(t);
                return Err(error(line, m));
            },
        };
        if v < 0 || v > u32::MAX as i64 {
            return Err(error(line, text3("cannot config ", upper, " with negative number or large number")));
        }
        let x32 = v as u32;
        if x32 > limit {
            let m = text3("env(", upper, ") must less than ").concat(crate::error::u32_text(limit).as_str());
            return Err(error(line, m));
        }
        if which == 0 {
            self.env.precision = x32;
        } else if which == 1 {
            self.env.print_set_inst = x32;
        } else if which == 2 {
            self.env.detail_depth = x32;
        } else if which == 3 {
            self.env.max_stack_depth = x32;
        } else {
            self.env.index_base = x32;
        }
        Ok(self.new_cell(Var::from_i64(v)))
    }

    /// Runs the builtin function `name`, whose arguments are bound in the innermost scope.
    /// `import_rlib` is refused once its argument is checked: this runtime loads no native
    /// library modules.
    fn call_builtin(&mut self, name: &String, line: usize, Ghost(mods): Ghost<int>, Ghost(fuel): Ghost<int>) -> (res: Result<usize, RuntimeError>)
        requires
            old(self).wf(),
            mods == old(self).mods_left(),
            old(self).top_depth() < depth_limit(),
            fuel == depth_limit() - old(self).top_depth(),
        ensures
            final(self).wf(),
            final(self).grows_from(old(self)),
            res is Ok ==> final(self).frame() == old(self).frame(),
            res is Ok ==> final(self).locals@.len() == old(self).locals@.len(),
            res matches Ok(h) ==> h < final(self).cells@.len(),
            usize::MAX != u64::MAX ==> res is Err,
            usize::MAX == u64::MAX && name@ == "$"@ ==> (res matches Ok(h)
                && final(self).cells@[h as int]@ == (VarType::Empty, Seq::<u8>::empty())
                && final(self).pushed_cell(old(self))),
            usize::MAX == u64::MAX && name@ == "."@ ==> (res matches Ok(h)
                && final(self).cells@[h as int]@ == (VarType::I32, crate::var::i32_le(1i32))
                && final(self).pushed_cell(old(self))),
            usize::MAX == u64::MAX && (name@ == "if"@ || name@ == "else"@) ==> {
                let x = old(self).locals@.last().var_of("x"@);
                let v = old(self).cells@[x->0 as int]@;
                let n = crate::var::var_i64(v);
                let truth = if name@ == "if"@ { n == 0 } else { n != 0 };
                &&& res is Ok <==> x is Some && ((v.0 == VarType::I32 && v.1.len() >= 4) || (v.0 == VarType::I64 && v.1.len() >= 8))
                &&& res matches Ok(h) ==> final(self).cells@[h as int]@ == (VarType::I32, crate::var::i32_le(if truth { 1i32 } else { 0i32 }))
                    && final(self).pushed_cell(old(self))
                &&& res is Err ==> *final(self) == *old(self)
            },
            name@ == "abort"@ ==> res is Err,
            usize::MAX == u64::MAX && (name@ == "print"@ || name@ == "println"@) ==> {
                let x = old(self).locals@.last().var_of("x"@);
                let v = old(self).cells@[x->0 as int]@;
                let t = crate::var::display_text(v, old(self).env.precision as nat);
                x is Some && v.0 != VarType::Sequence ==> {
                    &&& res is Ok <==> crate::var::is_displayable(v)
                    &&& res is Ok && name@ == "print"@ ==> final(self).pending() == old(self).pending() + t
                        && final(self).output_lines() == old(self).output_lines()
                    &&& res is Ok && name@ == "println"@ ==> final(self).pending().len() == 0
                        && final(self).output_lines().len() == old(self).output_lines().len() + 1
                        && final(self).output_lines().drop_last() == old(self).output_lines()
                        && final(self).output_lines().last()@ == old(self).pending() + t
                }
            },
        decreases mods, fuel, 1int, Inst::Empty,
    {
        if !(usize::MAX as u64 == u64::MAX) {
            return Err(internal(line));
        }
        proof {
            reveal_strlit("if");
            reveal_strlit("else");
            reveal_strlit("$");
            reveal_strlit(".");
            reveal_strlit("abort");
            reveal_strlit("print");
            reveal_strlit("println");
            assert("$"@.len() == 1 && "."@.len() == 1 && "if"@.len() == 2 && "else"@.len() == 4
                && "abort"@.len() == 5 && "print"@.len() == 5 && "println"@.len() == 7);
            assert("$"@[0] != "."@[0]);
            assert("print"@[0] != "abort"@[0]);
        }
        if text_is(name, "if") || text_is(name, "else") {
            let is_if = text_is(name, "if");
            let x = match self.param("x", line) {
                Ok(h) => h,
                Err(err) => return Err(err),
            };
            let v = match self.int_of(x) {
                Ok(v) => v,
                Err(t) => {
                    let m = text3("expect argument of ", if is_if { "iff" } else { "elsef" }, "(x) to be a integer got ").concat(t);
                    return Err(error(line, m));
                },
            };
            let b = if is_if { v == 0 } else { v != 0 };
            return Ok(self.new_cell(Var::from_i32(if b { 1 } else { 0 })));
        }
        if text_is(name, "$") {
            return Ok(self.new_cell(Var::none()));
        }
        if text_is(name, ".") {
            return Ok(self.new_cell(Var::from_i32(1)));
        }
        if text_is(name, "abort") {
            let x = match self.param("msg", line) {
                Ok(h) => h,
                Err(err) => return Err(err),
            };
            let t = self.cells[x].get_type();
            if t != VarType::Empty {
                let m = String::from_str("expect argument of abort(msg) to be literal string except ").concat(api_type_name(t));
                return Err(error(line, m));
            }
            let msg = self.text_of(x);
            return Err(error(line, text3("abort(\"", msg.as_str(), "\")")));
        }
        if text_is(name, "print") || text_is(name, "println") {
            let x = match self.param("x", line) {
                Ok(h) => h,
                Err(err) => return Err(err),
            };
            let out = if self.cells[x].get_type() == VarType::Sequence {
                match self.sequence_to_string(x, line, self.cells.len()) {
                    Ok(t) => t,
                    Err(err) => return Err(err),
                }
            } else {
                if !self.cells[x].can_display() {
                    return Err(error(line, String::from_str("value cannot be shown")));
                }
                proof { assert((self.env.precision as u8) as nat == self.env.precision as nat); }
                self.cells[x].to_text(self.env.precision as u8)
            };
            if text_is(name, "print") {
                self.print(out.as_str());
            } else {
                self.println(out.as_str());
            }
            return Ok(self.new_cell(Var::none()));
        }
        if text_is(name, "import") || text_is(name, "import_rlib") {
            let is_mod = text_is(name, "import");
            let x = match self.param(if is_mod { "__module__" } else { "__rlib__" }, line) {
                Ok(h) => h,
                Err(err) => return Err(err),
            };
            let t = self.cells[x].get_type();
            if t != VarType::Empty {
                let m = text3(if is_mod { "import" } else { "import_rlib" },
                    "() function only accpets literal string but got type ", t.name());
                return Err(error(line, m));
            }
            let path_str = self.text_of(x);
            if path_str == String::new() {
                let m = text3(if is_mod { "import" } else { "import_rlib" },
                    "() function only accpets literal string but got None", "");
                return Err(error(line, m));
            }
            if !is_mod {
                let m = text3("cannot read rust library ", path_str.as_str(), ", may not exist or no export_module()");
                return Err(error(line, m));
            }
            let path = self.path_of_module(&path_str);
            let ghost m = self.mods_left();
            let source = self.msys.read(&path);
            match self.load_module(&path_str, source, line, Ghost(m), Ghost(fuel)) {
                Ok(()) => {},
                Err(err) => return Err(err),
            }
            let msg = if self.env.detail_depth == 1 {
                text3("<import module ", path_str.as_str(), ">")
            } else {
                String::new()
            };
            return Ok(self.new_cell(Var::from_string(msg)));
        }
        if is_math_name(name) {
            let x = match self.param("x", line) {
                Ok(h) => h,
                Err(err) => return Err(err),
            };
            let t = self.cells[x].get_type();
            if t == VarType::Empty || t == VarType::Sequence {
                let m = text3("expect argument of ", name.as_str(), "(x) to be a number but got ").concat(api_type_name(t));
                return Err(error(line, m));
            }
            return match self.math.math(name, &self.cells[x]) {
                Ok(v) => Ok(self.new_cell(v)),
                Err(m) => Err(error(line, m)),
            };
        }
        if text_is(name, "__precision__") {
            return self.set_env(0, line);
        }
        if text_is(name, "__print_set_inst__") {
            return self.set_env(1, line);
        }
        if text_is(name, "__detail_depth__") {
            return self.set_env(2, line);
        }
        if text_is(name, "__max_stack_depth__") {
            return self.set_env(3, line);
        }
        if text_is(name, "__index_base__") {
            return self.set_env(4, line);
        }
        if text_is(name, "Sequence") {
            let x = match self.param("len", line) {
                Ok(h) => h,
                Err(err) => return Err(err),
            };
            let v = match self.int_of(x) {
                Ok(v) => v,
                Err(t) => {
                    let m = text3("cannot init a sequence with ", t, ", expect integer");
                    return Err(error(line, m));
                },
            };
            if v < 0 {
                let m = text3("cannot init a sequence with length ", crate::var::i64_text(v).as_str(),
                    " due to architecture of your computer");
                return Err(error(line, m));
            }
            let len = v as usize;
            let ghost old_locals = self.locals@;
            let sindex = self.locals.len() - 1;
            let mut top = self.locals.pop().unwrap();
            if top.heap.len() > usize::MAX - len || self.cells.len() > usize::MAX - len {
                self.locals.push(top);
                proof { assert(self.locals@ =~= old_locals); }
                return Err(error(line, String::from_str("sequence too long")));
            }
            let ghost c0 = self.cells@.len();
            let ghost f0 = self.funs@.len();
            proof { assert(old_locals.last().within(c0, f0)); }
            let (start, end) = top.add_arr(&mut self.cells, len);
            let sid = top.id;
            self.locals.push(top);
            proof {
                let c = self.cells@.len();
                lemma_within_mono(self.builtin, c0, f0, c, f0);
                lemma_scopes_mono(self.recur@, c0, f0, c, f0);
                assert(self.locals@.drop_last() =~= old_locals.drop_last());
                assert forall|i: int| 0 <= i < self.locals@.len() implies #[trigger] self.locals@[i].within(c, f0) by {
                    if i < self.locals@.len() - 1 {
                        assert(self.locals@[i] == old_locals[i]);
                        lemma_within_mono(old_locals[i], c0, f0, c, f0);
                    }
                }
                assert forall|i: int| 0 <= i < self.locals@.len() implies #[trigger] self.locals@[i].stack_depth <= 0x1_0000_0000 by {
                    if i < self.locals@.len() - 1 {
                        assert(self.locals@[i] == old_locals[i]);
                    } else {
                        assert(old_locals[i].stack_depth <= 0x1_0000_0000);
                    }
                }
                assert(depths(self.locals@) =~= depths(old_locals));
            }
            return Ok(self.new_cell(Var::new_sequence((start, end), (sindex, sid))));
        }
        if text_is(name, "len") {
            let x = match self.param("seq", line) {
                Ok(h) => h,
                Err(err) => return Err(err),
            };
            if self.cells[x].get_type() != VarType::Sequence {
                let m = String::from_str("expect argument of len(seq) to be a sequence but got ")
                    .concat(api_type_name(self.cells[x].get_type()));
                return Err(error(line, m));
            }
            if !self.cells[x].is_sequence_handle() {
                return Err(internal(line));
            }
            let (s, e) = self.cells[x].get_boundary();
            if s > e {
                return Err(internal(line));
            }
            let n = (e - s) as u64;
            if n > i64::MAX as u64 {
                return Err(internal(line));
            }
            return Ok(self.new_cell(Var::from_i64(n as i64)));
        }
        if text_is(name, "assert_eq") || text_is(name, "assert_ne") {
            let is_eq = text_is(name, "assert_eq");
            let l = match self.param("lhs", line) {
                Ok(h) => h,
                Err(err) => return Err(err),
            };
            let r = match self.param("rhs", line) {
                Ok(h) => h,
                Err(err) => return Err(err),
            };
            let x = match self.param("msg", line) {
                Ok(h) => h,
                Err(err) => return Err(err),
            };
            let t = self.cells[x].get_type();
            if t != VarType::Empty {
                let m = text3("expect message of ", if is_eq { "assert_eq" } else { "assert_ne" },
                    "(lhs, rhs, msg) to be literal string except ").concat(api_type_name(t));
                return Err(error(line, m));
            }
            let msg = self.text_of(x);
            let same = match self.var_eq(l, r, line, self.cells.len()) {
                Ok(b) => b,
                Err(err) => return Err(err),
            };
            if same == is_eq {
                return Ok(self.new_cell(Var::none()));
            }
            let m = text3(if is_eq { "assert_eq(\"lhs, rhs, " } else { "assert_ne(\"lhs, rhs, " }, msg.as_str(), "\")");
            return Err(error(line, m));
        }
        Err(internal(line))
    }
}


/// The frames of a list of scopes after one is pushed.
proof fn lemma_depths_push(s: Seq<Scope>, x: Scope)
    ensures
        depths(s.push(x)) == depths(s).push(x.stack_depth),
{
    assert(depths(s.push(x)) =~= depths(s).push(x.stack_depth));
}

/// A list of scopes has as many frames as scopes.
proof fn lemma_depths_len(s: Seq<Scope>)
    ensures
        depths(s).len() == s.len(),
{
}

/// The frames of a list of scopes after the last is dropped.
proof fn lemma_depths_drop(s: Seq<Scope>)
    requires
        s.len() >= 1,
    ensures
        depths(s.drop_last()) == depths(s).drop_last(),
        depths(s).last() == s.last().stack_depth,
{
    assert(depths(s.drop_last()) =~= depths(s).drop_last());
}

/// Copies of a list of names.
fn copy_names(v: &Vec<String>) -> (r: Vec<String>)
    ensures
        r@ == v@,
{
    let mut out: Vec<String> = Vec::new();
    let mut i: usize = 0;
    while i < v.len()
        invariant
            i <= v@.len(),
            out@ == v@.subrange(0, i as int),
        decreases v@.len() - i,
    {
        out.push(v[i].clone());
        i = i + 1;
        assert(out@ =~= v@.subrange(0, i as int));
    }
    assert(v@.subrange(0, v@.len() as int) =~= v@);
    out
}

impl<F: FloatMath, M: ModSystem> Runtime<F, M> {
    /// Sets the call depth of the innermost scope to zero (after a refused call).
    fn reset_top_depth(&mut self)
        requires
            old(self).wf(),
        ensures
            final(self).wf(),
            final(self).grows_from(old(self)),
            final(self).locals@.len() == old(self).locals@.len(),
            final(self).locals@ == old(self).locals@.update(old(self).locals@.len() - 1,
                Scope { stack_depth: 0, ..old(self).locals@.last() }),
            final(self).cells == old(self).cells,
            final(self).funs == old(self).funs,
            final(self).builtin == old(self).builtin,
            final(self).recur == old(self).recur,
            final(self).module == old(self).module,
            final(self).output == old(self).output,
            final(self).env == old(self).env,
    {
        let ghost old_locals = self.locals@;
        let mut top = self.locals.pop().unwrap();
        proof { assert(old_locals.last().within(self.cells@.len(), self.funs@.len())); }
        top.stack_depth = 0;
        self.locals.push(top);
        proof {
            assert forall|i: int| 0 <= i < self.locals@.len() implies #[trigger] self.locals@[i].within(self.cells@.len(), self.funs@.len()) by {
                if i < self.locals@.len() - 1 {
                    assert(self.locals@[i] == old_locals[i]);
                }
            }
            assert forall|i: int| 0 <= i < self.locals@.len() implies #[trigger] self.locals@[i].stack_depth <= 0x1_0000_0000 by {
                if i < self.locals@.len() - 1 {
                    assert(self.locals@[i] == old_locals[i]);
                }
            }
        }
    }

    /// Runs the body of a function in the innermost scope (which its call pushed); the cell of
    /// the value of its last instruction. A scope deeper than the configured limit is refused.
    fn exec_fun(&mut self, fun: usize, line: usize, Ghost(mods): Ghost<int>, Ghost(fuel): Ghost<int>) -> (res: Result<usize, RuntimeError>)
        requires
            old(self).wf(),
            mods == old(self).mods_left(),
            fun < old(self).funs@.len(),
            old(self).top_depth() <= depth_limit(),
            fuel == depth_limit() - old(self).top_depth(),
        ensures
            final(self).wf(),
            final(self).grows_from(old(self)),
            res matches Ok(h) ==> h < final(self).cells@.len() && final(self).frame() == old(self).frame(),
            res matches Ok(h) ==> final(self).locals@.last().var_of("__return__"@) == Some(h),
            old(self).locals@.last().stack_depth > old(self).env.max_stack_depth ==> {
                &&& res matches Err(e) && e.line == line
                    && e.msg@ == "reached maximum stack depth "@ + num_text(old(self).env.max_stack_depth as nat)
                &&& final(self).locals@ == old(self).locals@.update(old(self).locals@.len() - 1,
                    Scope { stack_depth: 0, ..old(self).locals@.last() })
                &&& final(self).cells == old(self).cells
            },
            old(self).locals@.last().stack_depth <= old(self).env.max_stack_depth && old(self).funs@[fun as int].data@.len() == 0 ==> {
                &&& *final(self) == *old(self)
                &&& res is Ok <==> old(self).locals@.last().var_of("__return__"@) is Some
            },
            old(self).locals@.last().stack_depth <= old(self).env.max_stack_depth && old(self).funs@[fun as int].data@.len() == 1
                && arith_inst(old(self).funs@[fun as int].data@[0]) ==> {
                let v = old(self).arith_eval_inst(old(self).funs@[fun as int].data@[0]);
                &&& res is Ok <==> v is Some
                &&& res matches Ok(h) ==> Some(final(self).cells@[h as int]@) == v
            },
        decreases mods, fuel, 3int, Inst::Empty,
    {
        let top = self.locals.len() - 1;
        if self.locals[top].stack_depth > self.env.max_stack_depth as u64 {
            let max = self.env.max_stack_depth;
            self.reset_top_depth();
            let m = String::from_str("reached maximum stack depth ").concat(crate::error::u32_text(max).as_str());
            return Err(error(line, m));
        }
        let body = copy_insts(&self.funs[fun].data);
        let ghost single = old(self).funs@[fun as int].data@.len() == 1 && arith_inst(old(self).funs@[fun as int].data@[0]);
        proof {
            if single {
                assert(crate::scope::same_inst(old(self).funs@[fun as int].data@[0], body@[0]));
                lemma_same_arith_inst(old(self).funs@[fun as int].data@[0], body@[0]);
            }
        }
        let ghost mut hv: usize = 0;
        let mut k: usize = 0;
        while k < body.len()
            invariant
                single == (old(self).funs@[fun as int].data@.len() == 1 && arith_inst(old(self).funs@[fun as int].data@[0])),
                single ==> body@[0] == old(self).funs@[fun as int].data@[0],
                single && k == 1 ==> self.locals@.last().var_of("__return__"@) == Some(hv) && hv < self.cells@.len()
                    && Some(self.cells@[hv as int]@) == old(self).arith_eval_inst(body@[0]),
                self.wf(),
                self.grows_from(old(self)),
                self.frame() == old(self).frame(),
                self.top_depth() == old(self).top_depth(),
                self.top_depth() < depth_limit(),
                self.locals@.len() == old(self).locals@.len(),
                top == self.locals@.len() - 1,
                fuel == depth_limit() - old(self).top_depth(),
                mods == old(self).mods_left(),
                body@.len() == old(self).funs@[fun as int].data@.len(),
                k <= body@.len(),
                k == 0 ==> *self == *old(self),
                old(self).locals@.last().stack_depth <= old(self).env.max_stack_depth,
            decreases body@.len() - k,
        {
            let ghost m = self.mods_left();
            let v = match self.exec_inst(&body[k], line, Ghost(m), Ghost(fuel)) {
                Ok(v) => v,
                Err(err) => return Err(err),
            };
            proof { lemma_depths_drop(self.locals@); lemma_depths_drop(old(self).locals@); }
            self.bind_top(String::from_str("__return__"), v);
            proof {
                lemma_depths_drop(self.locals@);
                if single {
                    hv = v;
                }
            }
            k = k + 1;
        }
        proof {
            assert(self.locals@[top as int].within(self.cells@.len(), self.funs@.len()));
            crate::scope::lemma_table_get_below(self.locals@[top as int].var_table@, "__return__"@, self.cells@.len());
        }
        match self.locals[top].get_var(&String::from_str("__return__")) {
            Some(h) => Ok(h),
            None => Err(internal(line)),
        }
    }

    /// Runs an expression; the cell of its value.
    #[verifier::spinoff_prover]
    #[verifier::rlimit(80)]
    fn exec_expr(&mut self, expr: &Expr, line: usize, Ghost(mods): Ghost<int>, Ghost(fuel): Ghost<int>) -> (res: Result<usize, RuntimeError>)
        requires
            old(self).wf(),
            mods == old(self).mods_left(),
            old(self).top_depth() < depth_limit(),
            fuel == depth_limit() - old(self).top_depth(),
        ensures
            final(self).wf(),
            final(self).grows_from(old(self)),
            res matches Ok(h) ==> h < final(self).cells@.len() && final(self).frame() == old(self).frame(),
            expr is Empty ==> *final(self) == *old(self) && (res matches Err(e) && e.line == line
                && e.msg@ == "runtime internal error!"@),
            expr matches Expr::Var(n) ==> {
                let found = var_search(old(self).locals@, old(self).locals@.len() - 1, None, n@);
                let inb = old(self).builtin.var_of(n@);
                &&& *final(self) == *old(self)
                &&& res is Ok <==> found is Some || inb is Some
                &&& res matches Ok(h) ==> Some(h) == (if found is Some { found } else { inb })
                &&& res matches Err(e) ==> e.line == line && e.msg@ == n@ + " is undefined variable"@
            },
            expr matches Expr::Number(d) ==> {
                let b = vstd::utf8::encode_utf8(d@);
                let known = old(self).builtin.var_of(d@);
                &&& known is Some ==> *final(self) == *old(self) && (res matches Ok(h) && h == known->0)
                &&& known is None ==> (res is Ok <==> crate::big_num::parse::literal_fits(b)
                    && usize::MAX == u64::MAX && crate::var::lit_value(b) is Some)
                &&& known is None ==> (res matches Ok(h) ==> final(self).cells@[h as int]@ == crate::var::lit_value(b)->0
                    && final(self).builtin.var_of(d@) == Some(h) && final(self).cells@.len() == old(self).cells@.len() + 1)
                &&& res is Err ==> *final(self) == *old(self)
                &&& res matches Err(e) ==> e.line == line && e.msg@ == d@ + " is invalid number (too large or too small)"@
            },
            expr matches Expr::FunCall(n, args) ==> {
                let f = match fun_search(old(self).locals@, old(self).locals@.len() - 1, n@) {
                    Some(h) => Some(h),
                    None => old(self).builtin.fun_of(n@),
                };
                let pl = old(self).funs@[f->0 as int].para_name@.len();
                let al = args@.len();
                let env = crate::env::env_name(vstd::utf8::encode_utf8(n@));
                &&& f is None ==> *final(self) == *old(self) && (res matches Err(e) && e.line == line
                    && e.msg@ == n@ + "() is an undefined function (could be variable)"@)
                &&& f is Some && ((env && al > pl) || (!env && al != pl)) ==> *final(self) == *old(self)
                    && (res matches Err(e) && e.line == line
                    && e.msg@ == "function "@ + n@ + "() expect "@ + num_text(pl) + " arguments got "@ + num_text(al))
            },
            arith_expr(*expr) ==> final(self).only_read(old(self))
                && (res is Ok <==> old(self).arith_eval(*expr) is Some)
                && (res matches Ok(h) ==> Some(final(self).cells@[h as int]@) == old(self).arith_eval(*expr)),
            expr matches Expr::FunCall(n, args) ==> old(self).simple_call(n@, args@) ==> ({
                let f = old(self).callee(n@);
                let fd = old(self).funs@[f as int].data@;
                let ps = old(self).funs@[f as int].para_name@.map_values(|s: String| s@);
                let vs = args@.map_values(|a: Expr| old(self).arith_eval(a)->0);
                let ok = forall|j: int| 0 <= j < args@.len() ==> (#[trigger] old(self).arith_eval(args@[j])) is Some;
                &&& res is Ok ==> ok && old(self).call_eval_inst(ps, vs, fd[0]) is Some
                &&& ok ==> (old(self).call_eval_inst(ps, vs, fd[0]) matches Some(v) ==> v.0 != VarType::Sequence
                    ==> (res matches Ok(h) && final(self).cells@[h as int]@ == v))
            }),
        decreases mods, fuel, 2int, expr,
    {
        proof {
            reveal_with_fuel(Runtime::arith_eval, 1);
            reveal_with_fuel(Runtime::arith_eval_inst, 1);
        }
        match expr {
            Expr::Empty => Err(internal(line)),
            Expr::Inst(sub) => {
                let ghost m = self.mods_left();
                self.exec_inst(sub, line, Ghost(m), Ghost(fuel))
            },
            Expr::Number(data) => {
                proof {
                    crate::scope::lemma_table_get_below(self.builtin.var_table@, data@, self.cells@.len());
                    reveal(literal_value);
                }
                match self.builtin.get_var(data) {
                    Some(h) => Ok(h),
                    None => {
                        if crate::big_num::parse::literal_in_range(data.as_str()) && usize::MAX as u64 == u64::MAX {
                            match Var::new(data.as_str()) {
                                Some(v) => Ok(self.add_builtin_var(data.clone(), v)),
                                None => Err(error(line, data.clone().concat(" is invalid number (too large or too small)"))),
                            }
                        } else {
                            Err(error(line, data.clone().concat(" is invalid number (too large or too small)")))
                        }
                    },
                }
            },
            Expr::Var(name) => {
                match self.find_var(name) {
                    Some(h) => Ok(h),
                    None => {
                        proof { crate::scope::lemma_table_get_below(self.builtin.var_table@, name@, self.cells@.len()); }
                        match self.builtin.get_var(name) {
                            Some(h) => Ok(h),
                            None => Err(error(line, name.clone().concat(" is undefined variable"))),
                        }
                    },
                }
            },
            Expr::FunCall(name, args) => {
                let fun = match self.find_fun(name) {
                    Some(f) => f,
                    None => return Err(error(line, name.clone().concat("() is an undefined function (could be variable)"))),
                };
                let para_len = self.funs[fun].para_name.len();
                let arg_len = args.len();
                let is_name_env = is_env(name.as_str());
                if (is_name_env && arg_len > para_len) || (!is_name_env && para_len != arg_len) {
                    let m = text3("function ", name.as_str(), "() expect ").concat(usize_text(para_len).as_str())
                        .concat(" arguments got ").concat(usize_text(arg_len).as_str());
                    return Err(error(line, m));
                }
                let ghost simple = old(self).simple_call(name@, args@);
                let ghost ps = old(self).funs@[fun as int].para_name@.map_values(|s: String| s@);
                let ghost vs = args@.map_values(|a: Expr| old(self).arith_eval(a)->0);
                let id = match self.next_scope_id(line) {
                    Ok(id) => id,
                    Err(err) => return Err(err),
                };
                let ghost s0: Self = *self;
                proof {
                    if simple {
                        assert(s0.read_since(old(self)));
                        assert forall|j: int| 0 <= j < args@.len() implies s0.arith_eval(args@[j]) == old(self).arith_eval(#[trigger] args@[j]) by {
                            assert(arith_expr(args@[j]));
                            Self::lemma_read_keeps_eval(&s0, old(self), args@[j]);
                        }
                    }
                }
                let params = copy_names(&self.funs[fun].para_name);
                let depth = self.locals[self.locals.len() - 1].stack_depth + 1;
                let mut sub = Scope::new(name.clone(), id);
                sub.stack_depth = depth;
                let n = if arg_len < para_len { arg_len } else { para_len };
                let ghost m = self.mods_left();
                let sub = match self.bind_args(args, &params, sub, n, line, Ghost(m), Ghost(fuel)) {
                    Ok(s) => s,
                    Err(err) => return Err(err),
                };
                proof {
                    lemma_depths_drop(self.locals@);
                    lemma_depths_drop(old(self).locals@);
                }
                let ghost locals0 = self.locals@;
                let ghost recur0 = self.recur@;
                let is_recur = self.locals.len() > 1 && self.locals[self.locals.len() - 1].name == sub.name;
                if is_recur {
                    let t = self.locals.pop().unwrap();
                    self.recur.push(t);
                }
                let ghost locals1 = self.locals@;
                let ghost recur1 = self.recur@;
                proof {
                    if is_recur {
                        assert(locals1 == locals0.drop_last());
                        assert(recur1 == recur0.push(locals0.last()));
                        lemma_depths_drop(locals0);
                        lemma_depths_push(recur0, locals0.last());
                    } else {
                        assert(locals1 == locals0);
                        assert(recur1 == recur0);
                    }
                }
                self.locals.push(sub);
                let ghost locals2 = self.locals@;
                proof {
                    assert(locals2 == locals1.push(sub));
                    lemma_depths_push(locals1, sub);
                    assert(self.locals@.last() == sub);
                    if simple {
                        assert(self.lits_since(old(self)));
                        assert(ps.len() == params@.len());
                        assert forall|j: int| 0 <= j < ps.len() && #[trigger] param_at(ps, ps[j]) == Some(j)
                            implies (self.var_cell(ps[j]) matches Some(h) && h < self.cells@.len() && self.cells@[h as int]@ == vs[j]) by {
                            lemma_param_at(ps, ps[j]);
                            assert(ps[j] == params@[j]@);
                            assert forall|i: int| j < i < n implies params@[i]@ != params@[j]@ by {
                                assert(ps[i] == params@[i]@);
                            }
                            assert(old(self).arith_eval(args@[j]) is Some);
                            assert(vs[j] == old(self).arith_eval(args@[j])->0);
                            assert(sub.var_of(params@[j]@) is Some);
                            let h = sub.var_of(params@[j]@)->0;
                            assert(self.locals@[self.locals@.len() - 1].var_of(ps[j]) == Some(h));
                            assert(var_search(self.locals@, self.locals@.len() - 1, None, ps[j]) == Some(h));
                            assert(self.var_cell(ps[j]) == Some(h));
                            assert(Some(self.cells@[h as int]@) == s0.arith_eval(args@[j]));
                            assert(s0.arith_eval(args@[j]) == old(self).arith_eval(args@[j]));
                            crate::scope::lemma_table_get_below(sub.var_table@, ps[j], self.cells@.len());
                            assert(h < self.cells@.len());
                        }
                        Self::lemma_call_eval_inst(self, old(self), ps, vs, old(self).funs@[fun as int].data@[0]);
                    }
                    assert(locals1.len() >= 1);
                    assert(self.locals@[0] == locals1[0]);
                    assert(locals1[0] == locals0[0]);
                }
                let ghost m = self.mods_left();
                let rval = match self.exec_fun(fun, line, Ghost(m), Ghost(fuel - 1)) {
                    Ok(r) => r,
                    Err(err) => return Err(err),
                };
                let ghost locals3 = self.locals@;
                let ghost recur3 = self.recur@;
                proof {
                    assert(depths(recur3).len() == recur3.len());
                    assert(depths(locals3).len() == locals3.len());
                    assert(depths(locals3) == depths(locals2));
                    assert(depths(recur3) == depths(recur1));
                    lemma_depths_drop(locals3);
                }
                let fun_scope = self.locals.pop().unwrap();
                proof {
                    assert(depths(self.locals@) =~= depths(locals1));
                    assert(self.locals@.len() >= 1);
                    assert(self.locals@[0] == locals3[0]);
                }
                if is_recur {
                    let t = self.recur.pop().unwrap();
                    proof {
                        lemma_depths_drop(recur3);
                        assert(depths(self.recur@) =~= depths(recur0));
                        assert(t.stack_depth == locals0.last().stack_depth);
                    }
                    let ghost l4 = self.locals@;
                    self.locals.push(t);
                    proof {
                        assert(self.locals@[0] == l4[0]);
                        lemma_depths_push(l4, t);
                        lemma_depths_drop(locals0);
                        assert(depths(self.locals@) =~= depths(locals0));
                    }
                }
                let cur_index = self.locals.len() - 1;
                if self.cells[rval].get_type() == VarType::Sequence {
                    let fuel2 = self.cells.len();
                    match self.move_sequence(&fun_scope, cur_index, rval, line, fuel2) {
                        Ok(()) => {},
                        Err(err) => return Err(err),
                    }
                }
                Ok(rval)
            },
        }
    }

    /// Runs the first `n` argument expressions and binds copies of their values to the
    /// parameter names in the scope `sub` of the call.
    fn bind_args(&mut self, args: &Vec<Expr>, params: &Vec<String>, sub: Scope, n: usize, line: usize, Ghost(mods): Ghost<int>, Ghost(fuel): Ghost<int>) -> (res: Result<Scope, RuntimeError>)
        requires
            old(self).wf(),
            mods == old(self).mods_left(),
            old(self).top_depth() < depth_limit(),
            fuel == depth_limit() - old(self).top_depth(),
            n <= args@.len(),
            n <= params@.len(),
            sub.within(old(self).cells@.len(), old(self).funs@.len()),
        ensures
            final(self).wf(),
            final(self).grows_from(old(self)),
            res matches Ok(s) ==> final(self).frame() == old(self).frame()
                && s.within(final(self).cells@.len(), final(self).funs@.len())
                && s.stack_depth == sub.stack_depth
                && s.name == sub.name
                && s.id == sub.id,
            n == 0 ==> *final(self) == *old(self) && res == Ok::<Scope, RuntimeError>(sub),
            res matches Ok(s) ==> {
                &&& forall|k: int| 0 <= k < n ==> (#[trigger] s.var_of(params@[k]@)) is Some
                &&& forall|nm: Seq<char>| (forall|k: int| 0 <= k < n ==> params@[k]@ != nm) ==> #[trigger] s.var_of(nm) == sub.var_of(nm)
                &&& s.fun_table@ == sub.fun_table@
                &&& s.heap@ == sub.heap@
            },
            (forall|j: int| 0 <= j < n ==> arith_expr(#[trigger] args@[j])) ==> {
                &&& res is Ok <==> (forall|j: int| 0 <= j < n ==> (#[trigger] old(self).arith_eval(args@[j])) is Some)
                &&& final(self).read_since(old(self))
                &&& res matches Ok(s) ==> forall|j: int| 0 <= j < n && (forall|i: int| j < i < n ==> params@[i]@ != params@[j]@)
                    ==> ((#[trigger] s.var_of(params@[j]@)) matches Some(h)
                        && Some(final(self).cells@[h as int]@) == old(self).arith_eval(args@[j]))
            },
        decreases mods, fuel, 2int, args,
    {
        let mut sub = sub;
        let ghost sub0 = sub;
        let ghost aa = forall|j: int| 0 <= j < n ==> arith_expr(#[trigger] args@[j]);
        let mut k: usize = 0;
        while k < n
            invariant
                self.wf(),
                self.grows_from(old(self)),
                self.frame() == old(self).frame(),
                self.top_depth() == old(self).top_depth(),
                self.top_depth() < depth_limit(),
                fuel == depth_limit() - old(self).top_depth(),
                mods == old(self).mods_left(),
                n <= args@.len(),
                n <= params@.len(),
                sub.within(self.cells@.len(), self.funs@.len()),
                sub.stack_depth == sub0.stack_depth,
                sub.name == sub0.name,
                sub.id == sub0.id,
                k <= n,
                k == 0 ==> *self == *old(self) && sub == sub0,
                forall|j: int| 0 <= j < k ==> (#[trigger] sub.var_of(params@[j]@)) is Some,
                forall|nm: Seq<char>| (forall|j: int| 0 <= j < k ==> params@[j]@ != nm) ==> #[trigger] sub.var_of(nm) == sub0.var_of(nm),
                sub.fun_table@ == sub0.fun_table@,
                sub.heap@ == sub0.heap@,
                old(self).wf(),
                aa == (forall|j: int| 0 <= j < n ==> arith_expr(#[trigger] args@[j])),
                aa ==> self.read_since(old(self)),
                aa ==> forall|j: int| 0 <= j < k ==> (#[trigger] old(self).arith_eval(args@[j])) is Some,
                aa ==> forall|j: int| 0 <= j < k && (forall|i: int| j < i < k ==> params@[i]@ != params@[j]@)
                    ==> ((#[trigger] sub.var_of(params@[j]@)) matches Some(h) && h < self.cells@.len()
                        && Some(self.cells@[h as int]@) == old(self).arith_eval(args@[j])),
            decreases n - k,
        {
            let ghost s0: Self = *self;
            proof {
                if aa {
                    assert(arith_expr(args@[k as int]));
                    Self::lemma_read_keeps_eval(self, old(self), args@[k as int]);
                }
            }
            proof { vstd::std_specs::vec::axiom_vec_index_decreases(*args, k as int); }
            let ghost m = self.mods_left();
            let v = match self.exec_expr(&args[k], line, Ghost(m), Ghost(fuel)) {
                Ok(v) => v,
                Err(err) => {
                    proof {
                        if aa {
                            assert(old(self).arith_eval(args@[k as int]) is None);
                        }
                    }
                    return Err(err);
                },
            };
            let ghost s1: Self = *self;
            proof {
                lemma_depths_drop(self.locals@);
                lemma_depths_drop(old(self).locals@);
            }
            let val = self.cells[v].copy();
            let ghost c0 = self.cells@.len();
            let h = self.new_cell(val);
            proof { lemma_within_mono(sub, c0, self.funs@.len(), self.cells@.len(), self.funs@.len()); }
            let ghost before = sub;
            let p = params[k].clone();
            sub.add_ref_var(p, h);
            proof {
                if aa {
                    assert(self.read_since(&s1));
                    Self::lemma_read_since_trans(&s1, &s0, old(self));
                    Self::lemma_read_since_trans(self, &s1, old(self));
                    assert forall|j: int| 0 <= j < k + 1 && (forall|i: int| j < i < k + 1 ==> params@[i]@ != params@[j]@)
                        implies ((#[trigger] sub.var_of(params@[j]@)) matches Some(hh) && hh < self.cells@.len()
                            && Some(self.cells@[hh as int]@) == old(self).arith_eval(args@[j])) by {
                        if j < k {
                            assert(params@[k as int]@ != params@[j]@);
                            assert(sub.var_of(params@[j]@) == before.var_of(params@[j]@));
                            let hh = before.var_of(params@[j]@)->0;
                            assert(hh < s0.cells@.len());
                            assert(s1.cells@[hh as int]@ == s0.cells@[hh as int]@);
                            assert(self.cells@[hh as int]@ == s1.cells@[hh as int]@);
                        } else {
                            assert(params@[j]@ == p@);
                        }
                    }
                }
                assert forall|j: int| 0 <= j < k + 1 implies (#[trigger] sub.var_of(params@[j]@)) is Some by {
                    if j < k && params@[j]@ != params@[k as int]@ {
                        assert(sub.var_of(params@[j]@) == before.var_of(params@[j]@));
                    }
                }
                assert forall|nm: Seq<char>| (forall|j: int| 0 <= j < k + 1 ==> params@[j]@ != nm) implies #[trigger] sub.var_of(nm) == sub0.var_of(nm) by {
                    assert(params@[k as int]@ != nm);
                    assert(sub.var_of(nm) == before.var_of(nm));
                }
            }
            k = k + 1;
        }
        proof {
            if aa {
                assert forall|j: int| 0 <= j < n && (forall|i: int| j < i < n ==> params@[i]@ != params@[j]@)
                    implies ((#[trigger] sub.var_of(params@[j]@)) matches Some(hh)
                        && Some(self.cells@[hh as int]@) == old(self).arith_eval(args@[j])) by {
                    assert(forall|i: int| j < i < k ==> params@[i]@ != params@[j]@);
                }
            }
        }
        Ok(sub)
    }

    /// Runs an instruction; the cell of its value.
    #[verifier::spinoff_prover]
    #[verifier::rlimit(60)]
    fn exec_inst(&mut self, inst: &Inst, line: usize, Ghost(mods): Ghost<int>, Ghost(fuel): Ghost<int>) -> (res: Result<usize, RuntimeError>)
        requires
            old(self).wf(),
            mods == old(self).mods_left(),
            old(self).top_depth() < depth_limit(),
            fuel == depth_limit() - old(self).top_depth(),
        ensures
            final(self).wf(),
            final(self).grows_from(old(self)),
            res matches Ok(h) ==> h < final(self).cells@.len() && final(self).frame() == old(self).frame(),
            inst is Empty ==> *final(self) == *old(self) && (res matches Err(e) && e.line == line),
            inst matches Inst::Expr(Expr::Var(n)) ==> {
                &&& *final(self) == *old(self)
                &&& res is Ok <==> old(self).var_cell(n@) is Some
                &&& res matches Ok(h) ==> old(self).var_cell(n@) == Some(h)
            },
            bin_vars(*inst) matches Some((op, x, y)) ==> {
                let cx = old(self).var_cell(x);
                let cy = old(self).var_cell(y);
                cx is Some && cy is Some ==> {
                    let a = old(self).cells@[cx->0 as int]@;
                    let b = old(self).cells@[cy->0 as int]@;
                    &&& res is Ok <==> crate::var::is_number(a) && crate::var::is_number(b) && usize::MAX == u64::MAX
                    &&& res matches Ok(h) ==> final(self).cells@[h as int]@ == crate::var::arith_view(op, a, b)
                }
            },
            arith_inst(*inst) ==> final(self).only_read(old(self))
                && (res is Ok <==> old(self).arith_eval_inst(*inst) is Some)
                && (res matches Ok(h) ==> Some(final(self).cells@[h as int]@) == old(self).arith_eval_inst(*inst)),
            inst matches Inst::Pow(l, r) ==> arith_expr(*l) && arith_expr(*r) ==> {
                let x = old(self).arith_eval(*l);
                let y = old(self).arith_eval(*r);
                &&& x is None || y is None ==> res is Err
                &&& x is Some && y is Some && int_typed(x->0) && int_typed(y->0) ==> {
                    &&& res is Ok <==> int_power_view(x->0, y->0) is Some
                    &&& res matches Ok(h) ==> Some(final(self).cells@[h as int]@) == int_power_view(x->0, y->0)
                }
            },
            inst matches Inst::Assign(Expr::Var(n), rhs) ==> arith_expr(*rhs)
                && literal_value(vstd::utf8::encode_utf8(n@)) is None ==> {
                &&& res is Ok <==> old(self).arith_eval(*rhs) is Some && old(self).builtin.var_of(n@) is None
                &&& res matches Ok(h) ==> final(self).var_cell(n@) == Some(h)
                    && Some(final(self).cells@[h as int]@) == old(self).arith_eval(*rhs)
                    && final(self).assigned(old(self), n@, h)
            },
        decreases mods, fuel, 2int, inst,
    {
        proof {
            reveal_with_fuel(Runtime::arith_eval, 1);
            reveal_with_fuel(Runtime::arith_eval_inst, 1);
        }
        match inst {
            Inst::Empty => Err(internal(line)),
            Inst::Expr(e) => {
                let ghost m = self.mods_left();
                self.exec_expr(e, line, Ghost(m), Ghost(fuel))
            },
            Inst::Add(l, r) => {
                let ghost s0: Self = *self;
                let ghost m = self.mods_left();
                let a = match self.exec_expr(l, line, Ghost(m), Ghost(fuel)) {
                    Ok(a) => a,
                    Err(err) => return Err(err),
                };
                proof {
                    lemma_depths_drop(self.locals@);
                    lemma_depths_drop(old(self).locals@);
                }
                let ghost s1: Self = *self;
                let ghost m = self.mods_left();
                let b = match self.exec_expr(r, line, Ghost(m), Ghost(fuel)) {
                    Ok(b) => b,
                    Err(err) => {
                        proof { self.lemma_arith_step(&s1, &s0, *l, *r, a as int); }
                        return Err(err);
                    },
                };
                let ghost s2: Self = *self;
                proof { self.lemma_arith_step(&s1, &s0, *l, *r, a as int); }
                let res = self.operate(ArithOp::Add, a, b, line);
                proof {
                    if arith_inst(*inst) {
                        if res is Ok {
                            self.lemma_pushed_only_read(&s2);
                        }
                        Self::lemma_only_read_trans(self, &s2, &s0);
                    }
                }
                res
            },
            Inst::Sub(l, r) => {
                let ghost s0: Self = *self;
                let ghost m = self.mods_left();
                let a = match self.exec_expr(l, line, Ghost(m), Ghost(fuel)) {
                    Ok(a) => a,
                    Err(err) => return Err(err),
                };
                proof {
                    lemma_depths_drop(self.locals@);
                    lemma_depths_drop(old(self).locals@);
                }
                let ghost s1: Self = *self;
                let ghost m = self.mods_left();
                let b = match self.exec_expr(r, line, Ghost(m), Ghost(fuel)) {
                    Ok(b) => b,
                    Err(err) => {
                        proof { self.lemma_arith_step(&s1, &s0, *l, *r, a as int); }
                        return Err(err);
                    },
                };
                let ghost s2: Self = *self;
                proof { self.lemma_arith_step(&s1, &s0, *l, *r, a as int); }
                let res = self.operate(ArithOp::Sub, a, b, line);
                proof {
                    if arith_inst(*inst) {
                        if res is Ok {
                            self.lemma_pushed_only_read(&s2);
                        }
                        Self::lemma_only_read_trans(self, &s2, &s0);
                    }
                }
                res
            },
            Inst::Div(l, r) => {
                let ghost s0: Self = *self;
                let ghost m = self.mods_left();
                let a = match self.exec_expr(l, line, Ghost(m), Ghost(fuel)) {
                    Ok(a) => a,
                    Err(err) => return Err(err),
                };
                proof {
                    lemma_depths_drop(self.locals@);
                    lemma_depths_drop(old(self).locals@);
                }
                let ghost s1: Self = *self;
                let ghost m = self.mods_left();
                let b = match self.exec_expr(r, line, Ghost(m), Ghost(fuel)) {
                    Ok(b) => b,
                    Err(err) => {
                        proof { self.lemma_arith_step(&s1, &s0, *l, *r, a as int); }
                        return Err(err);
                    },
                };
                let ghost s2: Self = *self;
                proof { self.lemma_arith_step(&s1, &s0, *l, *r, a as int); }
                let res = self.operate(ArithOp::Div, a, b, line);
                proof {
                    if arith_inst(*inst) {
                        if res is Ok {
                            self.lemma_pushed_only_read(&s2);
                        }
                        Self::lemma_only_read_trans(self, &s2, &s0);
                    }
                }
                res
            },
            Inst::Mod(l, r) => {
                let ghost s0: Self = *self;
                let ghost m = self.mods_left();
                let a = match self.exec_expr(l, line, Ghost(m), Ghost(fuel)) {
                    Ok(a) => a,
                    Err(err) => return Err(err),
                };
                proof {
                    lemma_depths_drop(self.locals@);
                    lemma_depths_drop(old(self).locals@);
                }
                let ghost s1: Self = *self;
                let ghost m = self.mods_left();
                let b = match self.exec_expr(r, line, Ghost(m), Ghost(fuel)) {
                    Ok(b) => b,
                    Err(err) => {
                        proof { self.lemma_arith_step(&s1, &s0, *l, *r, a as int); }
                        return Err(err);
                    },
                };
                let ghost s2: Self = *self;
                proof { self.lemma_arith_step(&s1, &s0, *l, *r, a as int); }
                let res = self.operate(ArithOp::Rem, a, b, line);
                proof {
                    if arith_inst(*inst) {
                        if res is Ok {
                            self.lemma_pushed_only_read(&s2);
                        }
                        Self::lemma_only_read_trans(self, &s2, &s0);
                    }
                }
                res
            },
            Inst::Mul(l, r) => {
                let ghost s0: Self = *self;
                let ghost m = self.mods_left();
                let a = match self.exec_expr(l, line, Ghost(m), Ghost(fuel)) {
                    Ok(a) => a,
                    Err(err) => return Err(err),
                };
                let ghost s1: Self = *self;
                let ta = self.cells[a].get_type();
                if ta == VarType::Empty {
                    return Err(error(line, String::from_str("using None type for operand or argument")));
                }
                if ta == VarType::Sequence {
                    return Err(error(line, String::from_str(
                        "variable or expression is not number, cannot be an operand or a argument of math functions")));
                }
                match self.int_of(a) {
                    Ok(0) => return Ok(a),
                    _ => {},
                }
                proof {
                    lemma_depths_drop(self.locals@);
                    lemma_depths_drop(old(self).locals@);
                }
                let ghost m = self.mods_left();
                let b = match self.exec_expr(r, line, Ghost(m), Ghost(fuel)) {
                    Ok(b) => b,
                    Err(err) => {
                        proof { self.lemma_arith_step(&s1, &s0, *l, *r, a as int); }
                        return Err(err);
                    },
                };
                let ghost s2: Self = *self;
                proof { self.lemma_arith_step(&s1, &s0, *l, *r, a as int); }
                match self.int_of(a) {
                    Ok(1) => return Ok(b),
                    _ => {},
                }
                let res = self.operate(ArithOp::Mul, a, b, line);
                proof {
                    if arith_inst(*inst) {
                        if res is Ok {
                            self.lemma_pushed_only_read(&s2);
                        }
                        Self::lemma_only_read_trans(self, &s2, &s0);
                    }
                }
                res
            },
            Inst::Neg(e) => {
                let ghost m = self.mods_left();
                let a = match self.exec_expr(e, line, Ghost(m), Ghost(fuel)) {
                    Ok(a) => a,
                    Err(err) => return Err(err),
                };
                let ta = self.cells[a].get_type();
                if ta == VarType::Empty {
                    return Err(error(line, String::from_str("using None type for operand or argument")));
                }
                if ta == VarType::Sequence {
                    return Err(error(line, String::from_str(
                        "variable or expression is not number, cannot be an operand or a argument of math functions")));
                }
                if !self.cells[a].is_arith_number() {
                    return Err(error(line, String::from_str("number out of range for arithmetic")));
                }
                let v = self.cells[a].neg();
                let ghost s1: Self = *self;
                let h = self.new_cell(v);
                proof {
                    assert(self.only_read(&s1));
                    if arith_inst(*inst) {
                        Self::lemma_only_read_trans(self, &s1, old(self));
                    }
                }
                Ok(h)
            },
            Inst::Pow(l, r) => {
                let ghost m = self.mods_left();
                let a = match self.exec_expr(l, line, Ghost(m), Ghost(fuel)) {
                    Ok(a) => a,
                    Err(err) => return Err(err),
                };
                proof {
                    lemma_depths_drop(self.locals@);
                    lemma_depths_drop(old(self).locals@);
                }
                let ghost s1: Self = *self;
                let ghost m = self.mods_left();
                let b = match self.exec_expr(r, line, Ghost(m), Ghost(fuel)) {
                    Ok(b) => b,
                    Err(err) => {
                        proof { self.lemma_arith_step(&s1, old(self), *l, *r, a as int); }
                        return Err(err);
                    },
                };
                proof { self.lemma_arith_step(&s1, old(self), *l, *r, a as int); }
                self.power(a, b, line)
            },
            Inst::BultinFnCall(name) => {
                let ghost m = self.mods_left();
                self.call_builtin(name, line, Ghost(m), Ghost(fuel))
            },
            Inst::Assign(lhs, rhs) => {
                match lhs {
                    Expr::Empty => Err(internal(line)),
                    Expr::Number(_) => Err(error(line, String::from_str("cannot assign value to numbers"))),
                    Expr::Var(name) => {
                        let ghost m = self.mods_left();
                        let v = match self.exec_expr(rhs, line, Ghost(m), Ghost(fuel)) {
                            Ok(v) => v,
                            Err(err) => return Err(err),
                        };
                        proof {
                            if arith_expr(*rhs) {
                                assert(self.builtin.var_of(name@) == old(self).builtin.var_of(name@)
                                    || old(self).builtin.var_of(name@) is None);
                            }
                        }
                        if self.builtin.has_var(name) {
                            return Err(error(line, String::from_str("overriding builtin constant ").concat(name.as_str())));
                        }
                        let ghost s1: Self = *self;
                        proof {
                            if arith_expr(*rhs) {
                                assert forall|m: Seq<char>| literal_value(vstd::utf8::encode_utf8(m)) is None
                                    implies #[trigger] s1.var_cell(m) == old(self).var_cell(m) by {
                                    assert(s1.builtin.var_of(m) == old(self).builtin.var_of(m));
                                }
                            }
                        }
                        match self.find_var(name) {
                            Some(h) => {
                                self.write_cell(h, v);
                                proof {
                                    if arith_expr(*rhs) && literal_value(vstd::utf8::encode_utf8(name@)) is None {
                                        assert forall|m: Seq<char>| #[trigger] self.var_cell(m) == s1.var_cell(m) by {}
                                        assert(self.locals@.len() == old(self).locals@.len());
                                        assert(self.out_buffer == old(self).out_buffer);
                                        assert(old(self).cells@.len() <= self.cells@.len());
                                        assert forall|i: int| 0 <= i < old(self).cells@.len() && i != h implies #[trigger] self.cells@[i]@ == old(self).cells@[i]@ by {
                                            assert(self.cells@[i] == s1.cells@[i]);
                                        }
                                        assert(self.var_cell(name@) == Some(h));
                                        assert(old(self).var_cell(name@) == Some(h));
                                        lemma_var_search_below(old(self).locals@, old(self).locals@.len() - 1, None, name@, old(self).cells@.len(), old(self).funs@.len());
                                        assert(h < old(self).cells@.len());
                                        assert forall|m: Seq<char>| #[trigger] self.builtin.var_of(m) == old(self).builtin.var_of(m) || {
                                            &&& old(self).builtin.var_of(m) is None
                                            &&& self.builtin.var_of(m) matches Some(c) && old(self).cells@.len() <= c < self.cells@.len() && c != h
                                                && literal_value(vstd::utf8::encode_utf8(m)) == Some(self.cells@[c as int]@)
                                        } by {
                                            if self.builtin.var_of(m) != old(self).builtin.var_of(m) {
                                                let c = s1.builtin.var_of(m)->0;
                                                assert(self.cells@[c as int] == s1.cells@[c as int]);
                                            }
                                        }
                                        assert forall|m: Seq<char>| m != name@ && literal_value(vstd::utf8::encode_utf8(m)) is None
                                            implies #[trigger] self.var_cell(m) == old(self).var_cell(m) by {
                                            assert(self.var_cell(m) == s1.var_cell(m));
                                            assert(s1.var_cell(m) == old(self).var_cell(m));
                                        }
                                        assert(self.assigned(old(self), name@, h));
                                    }
                                }
                                Ok(h)
                            },
                            None => {
                                let val = self.cells[v].copy();
                                let r = self.add_top_var(name.clone(), val);
                                proof {
                                    if arith_expr(*rhs) && literal_value(vstd::utf8::encode_utf8(name@)) is None {
                                        assert(old(self).var_cell(name@) is None);
                                        assert forall|i: int| 0 <= i < old(self).cells@.len() && i != r implies #[trigger] self.cells@[i]@ == old(self).cells@[i]@ by {
                                            assert(self.cells@[i] == s1.cells@[i]);
                                        }
                                        assert(self.assigned(old(self), name@, r));
                                    }
                                }
                                Ok(r)
                            },
                        }
                    },
                    Expr::Inst(_) => {
                        let ghost m = self.mods_left();
                        let v = match self.exec_expr(rhs, line, Ghost(m), Ghost(fuel)) {
                            Ok(v) => v,
                            Err(err) => return Err(err),
                        };
                        proof {
                            lemma_depths_drop(self.locals@);
                            lemma_depths_drop(old(self).locals@);
                        }
                        let ghost m = self.mods_left();
                        let h = match self.exec_expr(lhs, line, Ghost(m), Ghost(fuel)) {
                            Ok(h) => h,
                            Err(err) => return Err(err),
                        };
                        self.write_cell(h, v);
                        Ok(h)
                    },
                    Expr::FunCall(name, params) => self.define_fun(name, params, rhs, line),
                }
            },
        }
    }

}



/// The rest of repeated squaring: `ret` times `base` to the power `e`, a product taken at
/// each odd step and `base` squared at each step; `None` when a step meets a value that is not
/// a number fit for arithmetic.
pub open spec fn power_steps(base: (VarType, Seq<u8>), ret: (VarType, Seq<u8>), e: nat) -> Option<(VarType, Seq<u8>)>
    decreases e,
{
    if e == 0 {
        Some(ret)
    } else if !crate::var::is_number(base) || !crate::var::is_number(ret) {
        None
    } else {
        let r2 = if e % 2 == 1 { crate::var::arith_view(ArithOp::Mul, ret, base) } else { ret };
        power_steps(crate::var::arith_view(ArithOp::Mul, base, base), r2, e / 2)
    }
}

/// `a` to the power `e` by repeated squaring, or `None` when a step meets a number too large
/// for arithmetic (see `power_steps`).
fn int_power(a: &Var, e: i64) -> (r: Option<Var>)
    requires
        e >= 0,
        usize::MAX == u64::MAX,
    ensures
        match power_steps(a@, (VarType::I32, crate::var::i32_le(1i32)), e as nat) {
            Some(v) => r matches Some(x) && x@ == v,
            None => r is None,
        },
{
    let mut k = e;
    let mut base = a.copy();
    let mut ret = Var::from_i32(1);
    while k > 0
        invariant
            usize::MAX == u64::MAX,
            k >= 0,
            power_steps(base@, ret@, k as nat) == power_steps(a@, (VarType::I32, crate::var::i32_le(1i32)), e as nat),
        decreases k,
    {
        if !base.is_arith_number() || !ret.is_arith_number() {
            return None;
        }
        if k % 2 == 1 {
            ret = ret.mul(&base);
        }
        base = base.mul(&base);
        k = k / 2;
    }
    Some(ret)
}

/// The names of the parameters of a definition; `Err(true)` for an empty expression,
/// `Err(false)` for one that is not a variable.
fn param_names(params: &Vec<Expr>) -> (r: Result<Vec<String>, bool>)
    ensures
        r is Ok <==> forall|k: int| 0 <= k < params@.len() ==> (#[trigger] params@[k]) is Var,
        r matches Ok(v) ==> v@.len() == params@.len()
            && forall|k: int| 0 <= k < params@.len() ==> #[trigger] params@[k] == Expr::Var(v@[k]),
        r matches Err(empty) ==> exists|k: int| 0 <= k < params@.len()
            && (forall|j: int| 0 <= j < k ==> (#[trigger] params@[j]) is Var)
            && !(params@[k] is Var) && empty == (params@[k] is Empty),
{
    let mut para_name: Vec<String> = Vec::new();
    let mut k: usize = 0;
    while k < params.len()
        invariant
            k <= params@.len(),
            para_name@.len() == k,
            forall|j: int| 0 <= j < k ==> #[trigger] params@[j] == Expr::Var(para_name@[j]),
        decreases params@.len() - k,
    {
        match &params[k] {
            Expr::Var(p) => para_name.push(p.clone()),
            Expr::Empty => return Err(true),
            _ => return Err(false),
        }
        k = k + 1;
    }
    Ok(para_name)
}

impl<F: FloatMath, M: ModSystem> Runtime<F, M> {
    /// `a` to the power `b`: by repeated squaring when both are integers (a negative exponent
    /// counts as its magnitude), else as the host computes it.
    fn power(&mut self, a: usize, b: usize, line: usize) -> (res: Result<usize, RuntimeError>)
        requires
            old(self).wf(),
            a < old(self).cells@.len(),
            b < old(self).cells@.len(),
        ensures
            final(self).wf(),
            final(self).grows_from(old(self)),
            final(self).frame() == old(self).frame(),
            res matches Ok(h) ==> h < final(self).cells@.len(),
            ({
                let x = old(self).cells@[a as int]@;
                let y = old(self).cells@[b as int]@;
                let ints = (x.0 == VarType::I32 || x.0 == VarType::I64) && (y.0 == VarType::I32 || y.0 == VarType::I64);
                let e = crate::var::var_i64(y);
                let m: int = if e < 0 { -e } else { e as int };
                let p = power_steps(x, (VarType::I32, crate::var::i32_le(1i32)), m as nat);
                &&& res is Ok <==> x.0 != VarType::Empty && y.0 != VarType::Empty
                    && x.0 != VarType::Sequence && y.0 != VarType::Sequence
                    && (ints ==> ((y.0 == VarType::I32 && y.1.len() >= 4) || (y.0 == VarType::I64 && y.1.len() >= 8))
                        && e != i64::MIN && usize::MAX == u64::MAX && p is Some)
                &&& res matches Ok(h) ==> h == old(self).cells@.len() && final(self).pushed_cell(old(self))
                &&& ints ==> (res matches Ok(h) ==> final(self).cells@[h as int]@ == p->0)
                &&& res is Err ==> *final(self) == *old(self)
                &&& res matches Err(e) ==> e.line == line
            }),
    {
        let ta = self.cells[a].get_type();
        let tb = self.cells[b].get_type();
        if ta == VarType::Empty || tb == VarType::Empty {
            return Err(error(line, String::from_str("using None type for operand or argument")));
        }
        if ta == VarType::Sequence || tb == VarType::Sequence {
            return Err(error(line, String::from_str(
                "variable or expression is not number, cannot be an operand or a argument of math functions")));
        }
        if (ta == VarType::I32 || ta == VarType::I64) && (tb == VarType::I32 || tb == VarType::I64) {
            let mut e = match self.int_of(b) {
                Ok(e) => e,
                Err(_) => return Err(internal(line)),
            };
            if e < 0 {
                if e == i64::MIN {
                    return Err(internal(line));
                }
                e = -e;
            }
            if !(usize::MAX as u64 == u64::MAX) {
                return Err(internal(line));
            }
            let ret = match int_power(&self.cells[a], e) {
                Some(v) => v,
                None => return Err(error(line, String::from_str("number out of range for arithmetic"))),
            };
            Ok(self.new_cell(ret))
        } else {
            let v = self.math.powf(&self.cells[a], &self.cells[b]);
            Ok(self.new_cell(v))
        }
    }

    /// Defines the function `name(params) = rhs` in the innermost scope.
    fn define_fun(&mut self, name: &String, params: &Vec<Expr>, rhs: &Expr, line: usize) -> (res: Result<usize, RuntimeError>)
        requires
            old(self).wf(),
        ensures
            final(self).wf(),
            final(self).grows_from(old(self)),
            final(self).frame() == old(self).frame(),
            res matches Ok(h) ==> h < final(self).cells@.len(),
            res is Ok <==> old(self).builtin.fun_of(name@) is None
                && forall|k: int| 0 <= k < params@.len() ==> (#[trigger] params@[k]) is Var,
            res matches Ok(h) ==> {
                let f = final(self).funs@.last();
                &&& h == old(self).cells@.len()
                &&& final(self).cells@.len() == old(self).cells@.len() + 1
                &&& final(self).cells@[h as int]@ == (VarType::Empty, vstd::utf8::encode_utf8(
                    if old(self).env.detail_depth == 1 { "<defined function "@ + name@ + ">"@ } else { Seq::empty() }))
                &&& final(self).funs@.len() == old(self).funs@.len() + 1
                &&& forall|i: int| 0 <= i < old(self).funs@.len() ==> final(self).funs@[i] == old(self).funs@[i]
                &&& f.para_name@.len() == params@.len()
                &&& forall|k: int| 0 <= k < params@.len() ==> #[trigger] params@[k] == Expr::Var(f.para_name@[k])
                &&& f.data@.len() == 1
                &&& f.data@[0] matches Inst::Expr(e) && crate::scope::same_expr(*rhs, e)
                &&& final(self).locals@.len() == old(self).locals@.len()
                &&& final(self).locals@.last().fun_of(name@) == Some(old(self).funs@.len() as usize)
                &&& forall|k: Seq<char>| k != name@ ==> final(self).locals@.last().fun_of(k) == old(self).locals@.last().fun_of(k)
                &&& final(self).locals@.last().var_table@ == old(self).locals@.last().var_table@
                &&& forall|i: int| 0 <= i < old(self).locals@.len() - 1 ==> final(self).locals@[i] == old(self).locals@[i]
            },
            res is Err ==> *final(self) == *old(self),
            res matches Err(e) ==> e.line == line && (old(self).builtin.fun_of(name@) is Some
                ==> e.msg@ == "overriding builtin function "@ + name@),
    {
        if self.builtin.has_fun(name) {
            return Err(error(line, String::from_str("overriding builtin function ").concat(name.as_str())));
        }
        let para_name = match param_names(params) {
            Ok(v) => v,
            Err(true) => return Err(internal(line)),
            Err(false) => return Err(error(line, String::from_str("function paramter only accpets variable"))),
        };
        let body = copy_expr(rhs);
        let mut fun = Fun::new(para_name);
        fun.push_inst(Inst::Expr(body));
        let ghost old_locals = self.locals@;
        let ghost c = self.cells@.len();
        let ghost f0 = self.funs@.len();
        let mut top = self.locals.pop().unwrap();
        proof { assert(old_locals.last().within(c, f0)); }
        top.set_fun(&mut self.funs, name.clone(), fun);
        self.locals.push(top);
        proof {
            let f = self.funs@.len();
            lemma_within_mono(self.builtin, c, f0, c, f);
            lemma_scopes_mono(self.recur@, c, f0, c, f);
            assert(self.locals@.drop_last() =~= old_locals.drop_last());
            assert forall|i: int| 0 <= i < self.locals@.len() implies #[trigger] self.locals@[i].within(c, f) by {
                if i < self.locals@.len() - 1 {
                    assert(self.locals@[i] == old_locals[i]);
                    lemma_within_mono(old_locals[i], c, f0, c, f);
                }
            }
            assert forall|i: int| 0 <= i < self.locals@.len() implies #[trigger] self.locals@[i].stack_depth <= 0x1_0000_0000 by {
                if i < self.locals@.len() - 1 {
                    assert(self.locals@[i] == old_locals[i]);
                } else {
                    assert(old_locals[i].stack_depth <= 0x1_0000_0000);
                }
            }
            assert(depths(self.locals@) =~= depths(old_locals));
        }
        let msg = if self.env.detail_depth == 1 {
            text3("<defined function ", name.as_str(), ">")
        } else {
            String::new()
        };
        Ok(self.new_cell(Var::from_string(msg)))
    }
}


/// A list of parameter names.
fn names(a: &str, b: &str, c: &str, n: usize) -> (r: Vec<String>)
    ensures
        r@.len() == (if n >= 3 { 3 } else { n }),
        n >= 1 ==> r@[0]@ == a@,
        n >= 2 ==> r@[1]@ == b@,
        n >= 3 ==> r@[2]@ == c@,
{
    let mut v: Vec<String> = Vec::new();
    if n >= 1 {
        v.push(String::from_str(a));
    }
    if n >= 2 {
        v.push(String::from_str(b));
    }
    if n >= 3 {
        v.push(String::from_str(c));
    }
    v
}

impl<F: FloatMath, M: ModSystem> Runtime<F, M> {
    /// A runtime with the builtin constants and functions, one global scope, no output and the
    /// default settings; `math` computes the functions of real numbers. `true`, `false` and `0`
    /// read the `I32` 0, and `1` the `I32` 1.
    #[verifier::spinoff_prover]
    #[verifier::rlimit(40)]
    pub fn new(math: F, msys: M) -> (r: Self)
        ensures
            r.wf(),
            r.output_lines() == Seq::<String>::empty(),
            r.pending() == Seq::<char>::empty(),
            r.settings() == (Env { precision: 7, print_set_inst: 1, detail_depth: 0, max_stack_depth: 512, index_base: 0 }),
            r.top_depth() == 0,
            r.at_global(),
            r.base_name() == "__global__"@,
            r.var_cell("true"@) matches Some(h) && r.cell_value(h) == (VarType::I32, crate::var::i32_le(0i32)),
            r.var_cell("false"@) matches Some(h) && r.cell_value(h) == (VarType::I32, crate::var::i32_le(0i32)),
            r.var_cell("0"@) matches Some(h) && r.cell_value(h) == (VarType::I32, crate::var::i32_le(0i32)),
            r.var_cell("1"@) matches Some(h) && r.cell_value(h) == (VarType::I32, crate::var::i32_le(1i32)),
    {
        let mut rt = Runtime {
            cells: Vec::new(),
            funs: Vec::new(),
            builtin: Scope::new(String::from_str("__builtin__"), 0),
            locals: Vec::new(),
            recur: Vec::new(),
            output: Vec::new(),
            out_buffer: String::new(),
            max_scope_id: 0,
            env: Env::new(),
            math,
            msys,
            work_path: String::new(),
            module: Vec::new(),
        };
        rt.locals.push(Scope::new(String::from_str("__global__"), 0));
        rt.max_scope_id = 1;
        rt.add_builtin_fun("print", names("x", "", "", 1));
        rt.add_builtin_fun("import", names("__module__", "", "", 1));
        rt.add_builtin_fun("import_rlib", names("__rlib__", "", "", 1));
        rt.add_builtin_fun("println", names("x", "", "", 1));
        if usize::MAX as u64 == u64::MAX {
            let pi = BigNum::from_float_parts(false, 3, 1415926535897931264, 19);
            if pi.is_tame() {
                rt.add_builtin_var(String::from_str("pi"), Var::from_num(&pi));
            }
            let e = BigNum::from_float_parts(false, 2, 7182818284590450688, 19);
            if e.is_tame() {
                rt.add_builtin_var(String::from_str("e"), Var::from_num(&e));
            }
        }
        let h_true = rt.add_builtin_var(String::from_str("true"), Var::from_i32(0));
        proof {
            reveal_strlit("true");
            reveal_strlit("false");
            assert("true"@ != "false"@) by {
                assert("true"@.len() == 4);
                assert("false"@.len() == 5);
            }
        }
        let h_false = rt.add_builtin_var(String::from_str("false"), Var::from_i32(0));
        proof {
            assert(rt.builtin.var_of("true"@) == Some(h_true));
        }
        proof {
            reveal_strlit("true");
            reveal_strlit("false");
            reveal_strlit("0");
            assert("true"@ != "0"@) by { assert("true"@.len() == 4); assert("0"@.len() == 1); }
            assert("false"@ != "0"@) by { assert("false"@.len() == 5); assert("0"@.len() == 1); }
        }
        let h_zero = rt.add_builtin_var(String::from_str("0"), Var::from_i32(0));
        proof {
            reveal_strlit("true");
            reveal_strlit("false");
            reveal_strlit("0");
            reveal_strlit("1");
            assert("true"@ != "1"@) by { assert("true"@.len() == 4); assert("1"@.len() == 1); }
            assert("false"@ != "1"@) by { assert("false"@.len() == 5); assert("1"@.len() == 1); }
            assert("0"@ != "1"@) by { assert("0"@[0] == '0'); assert("1"@[0] == '1'); }
        }
        let h_one = rt.add_builtin_var(String::from_str("1"), Var::from_i32(1));
        let ghost consts = rt;
        proof {
            reveal_strlit("true");
            reveal_strlit("false");
            reveal_strlit("0");
            reveal_strlit("1");
            assert(rt.builtin.var_of("true"@) == Some(h_true));
            assert(rt.builtin.var_of("false"@) == Some(h_false));
            assert(rt.builtin.var_of("0"@) == Some(h_zero));
            assert(rt.cells@[h_true as int]@ == (VarType::I32, crate::var::i32_le(0i32)));
            assert(rt.cells@[h_false as int]@ == (VarType::I32, crate::var::i32_le(0i32)));
            assert(rt.cells@[h_zero as int]@ == (VarType::I32, crate::var::i32_le(0i32)));
        }
        rt.add_builtin_fun("sin", names("x", "", "", 1));
        rt.add_builtin_fun("cos", names("x", "", "", 1));
        rt.add_builtin_fun("tan", names("x", "", "", 1));
        rt.add_builtin_fun("asin", names("x", "", "", 1));
        rt.add_builtin_fun("acos", names("x", "", "", 1));
        rt.add_builtin_fun("atan", names("x", "", "", 1));
        rt.add_builtin_fun("abs", names("x", "", "", 1));
        rt.add_builtin_fun("sqrt", names("x", "", "", 1));
        rt.add_builtin_fun("ceil", names("x", "", "", 1));
        rt.add_builtin_fun("floor", names("x", "", "", 1));
        rt.add_builtin_fun("round", names("x", "", "", 1));
        rt.add_builtin_fun("exp", names("x", "", "", 1));
        rt.add_builtin_fun("log", names("x", "", "", 1));
        rt.add_builtin_fun("log2", names("x", "", "", 1));
        rt.add_builtin_fun("ln", names("x", "", "", 1));
        rt.add_builtin_fun("trunc", names("x", "", "", 1));
        rt.add_builtin_fun("cbrt", names("x", "", "", 1));
        rt.add_builtin_fun("__precision__", names("x", "", "", 1));
        rt.add_builtin_fun("__print_set_inst__", names("x", "", "", 1));
        rt.add_builtin_fun("__detail_depth__", names("x", "", "", 1));
        rt.add_builtin_fun("__max_stack_depth__", names("x", "", "", 1));
        rt.add_builtin_fun("__index_base__", names("x", "", "", 1));
        rt.add_builtin_fun("if", names("x", "", "", 1));
        rt.add_builtin_fun("else", names("x", "", "", 1));
        rt.add_builtin_fun("sign", names("x", "", "", 1));
        rt.add_builtin_fun("$", names("x", "", "", 1));
        rt.add_builtin_fun(".", names("x", "", "", 1));
        rt.add_builtin_fun("int32", names("x", "", "", 1));
        rt.add_builtin_fun("Sequence", names("len", "", "", 1));
        rt.add_builtin_fun("len", names("seq", "", "", 1));
        rt.add_builtin_fun("abort", names("msg", "", "", 1));
        rt.add_builtin_fun("assert_eq", names("lhs", "rhs", "msg", 3));
        rt.add_builtin_fun("assert_ne", names("lhs", "rhs", "msg", 3));
        proof {
            assert(rt.builtin.var_table@ == consts.builtin.var_table@);
            assert(rt.cells == consts.cells);
            assert(rt.locals@.len() == 1);
            assert forall|n: Seq<char>| var_search(rt.locals@, 0, None, n) is None by {
                assert(rt.locals@[0].var_of(n) is None);
                assert(var_search(rt.locals@, -1, Some(rt.locals@[0].name@), n) is None);
            }
        }
        rt
    }

    /// Drops local scopes down to the global one (after an error).
    fn unwind(&mut self)
        requires
            old(self).wf(),
        ensures
            final(self).wf(),
            final(self).grows_from(old(self)),
            1 <= final(self).locals@.len() <= old(self).locals@.len(),
            final(self).locals@ == old(self).locals@.take(final(self).locals@.len() as int),
            final(self).locals@.len() == 1 || final(self).locals@.last().name@ == "__global__"@,
            forall|j: int| final(self).locals@.len() <= j < old(self).locals@.len()
                ==> (#[trigger] old(self).locals@[j]).name@ != "__global__"@,
            final(self).cells == old(self).cells,
            final(self).funs == old(self).funs,
            final(self).builtin == old(self).builtin,
            final(self).recur == old(self).recur,
            final(self).module == old(self).module,
            final(self).output == old(self).output,
            final(self).env == old(self).env,
    {
        while self.locals.len() > 1 && !text_is(&self.locals[self.locals.len() - 1].name, "__global__")
            invariant
                self.wf(),
                self.grows_from(old(self)),
                1 <= self.locals@.len() <= old(self).locals@.len(),
                self.locals@ == old(self).locals@.take(self.locals@.len() as int),
                forall|j: int| self.locals@.len() <= j < old(self).locals@.len()
                    ==> (#[trigger] old(self).locals@[j]).name@ != "__global__"@,
                self.cells == old(self).cells,
                self.funs == old(self).funs,
                self.builtin == old(self).builtin,
                self.recur == old(self).recur,
                self.module == old(self).module,
                self.output == old(self).output,
                self.env == old(self).env,
            decreases self.locals@.len(),
        {
            let ghost l0 = self.locals@;
            self.locals.pop();
            proof {
                assert forall|i: int| 0 <= i < self.locals@.len() implies #[trigger] self.locals@[i].within(self.cells@.len(), self.funs@.len()) by {
                    assert(self.locals@[i] == l0[i]);
                }
                assert forall|i: int| 0 <= i < self.locals@.len() implies #[trigger] self.locals@[i].stack_depth <= 0x1_0000_0000 by {
                    assert(self.locals@[i] == l0[i]);
                }
            }
        }
    }

    /// Runs the instructions of a program in turn, the `i`-th as line `i`; the value of each is
    /// printed unless it is empty or the instruction is an assignment and assignments are not
    /// printed. On an error the local scopes are dropped down to the global one. A program of
    /// arithmetic instructions prints what `arith_outputs` gives.
    pub fn exec_ast(&mut self, ast: &Vec<Inst>) -> (res: Result<(), GlobalError>)
        requires
            old(self).wf(),
        ensures
            final(self).wf(),
            final(self).grows_from(old(self)),
            old(self).output_lines().len() <= final(self).output_lines().len(),
            forall|i: int| 0 <= i < old(self).output_lines().len() ==> final(self).output_lines()[i] == old(self).output_lines()[i],
            res matches Err(e) ==> e is RE,
            old(self).top_depth() >= 0x1_0000_0000 ==> res is Err && *final(self) == *old(self),
            old(self).top_depth() < 0x1_0000_0000 && res is Err
                ==> final(self).at_global(),
            final(self).base_name() == old(self).base_name(),
            old(self).top_depth() < 0x1_0000_0000 && res is Err && old(self).base_name() == "__global__"@
                ==> final(self).top_name() == "__global__"@,
            old(self).top_depth() < 0x1_0000_0000 && (forall|i: int| 0 <= i < ast@.len() ==> arith_inst(#[trigger] ast@[i])) ==> {
                let outs = old(self).arith_outputs(ast@);
                &&& res is Ok <==> outs is Some
                &&& res is Ok ==> final(self).output_lines().len() == old(self).output_lines().len() + outs->0.len()
                &&& res is Ok ==> forall|j: int| 0 <= j < outs->0.len()
                    ==> (#[trigger] final(self).output_lines()[old(self).output_lines().len() + j])@ == outs->0[j]
                &&& res is Ok ==> final(self).pending() == old(self).pending()
            },
            old(self).top_depth() < 0x1_0000_0000 && (forall|i: int| 0 <= i < ast@.len() ==> plain_line(#[trigger] ast@[i])) ==> {
                let po = old(self).prog_outputs(ast@);
                &&& res is Ok <==> po is Some
                &&& res is Ok ==> final(self).output_lines().len() == old(self).output_lines().len() + (po->0).2.len()
                &&& res is Ok ==> forall|j: int| 0 <= j < (po->0).2.len()
                    ==> (#[trigger] final(self).output_lines()[old(self).output_lines().len() + j])@ == (po->0).2[j]
                &&& res is Ok ==> final(self).pending() == old(self).pending()
            },
            old(self).top_depth() < 0x1_0000_0000 && ast@.len() == 0 ==> res is Ok && *final(self) == *old(self),
            old(self).top_depth() < 0x1_0000_0000 && old(self).single_read(ast@) is Some ==> {
                let v = old(self).cell_value(old(self).single_read(ast@)->0);
                let t = crate::var::display_text(v, old(self).settings().precision as nat);
                &&& res is Ok <==> crate::var::is_displayable(v) && usize::MAX == u64::MAX
                &&& res is Ok ==> final(self).output_lines().len() == old(self).output_lines().len() + (if t.len() == 0 { 0int } else { 1int })
                &&& res is Ok && t.len() > 0 ==> final(self).output_lines().last()@ == t
            },
    {
        if self.locals[self.locals.len() - 1].stack_depth >= 0x1_0000_0000 {
            return Err(GlobalError::RE(internal(0)));
        }
        let ghost m = self.mods_left();
        let ghost f = depth_limit() - self.top_depth();
        self.exec_module(ast, Ghost(m), Ghost(f))
    }

    /// Imports a module as the `import` builtin does: reads the file at `path` and hands what
    /// came back to `import_source`.
    pub fn import_mls(&mut self, mod_name: &String, path: &String, exec_line: Option<usize>) -> (res: Result<(), RuntimeError>)
        requires
            old(self).wf(),
        ensures
            final(self).wf(),
            final(self).grows_from(old(self)),
            res is Ok ==> final(self).output_lines() == old(self).output_lines(),
            res is Ok ==> final(self).imported(mod_name@),
            old(self).imported(mod_name@) ==> *final(self) == *old(self),
            res matches Err(e) ==> e.line == (match exec_line { Some(l) => l, None => 0 }),
    {
        let source = self.msys.read(path);
        self.import_source(mod_name, source, exec_line)
    }

    /// Imports the module whose text was read (`Err(())` where it could not be read) under the
    /// name `mod_name`: runs it in the innermost scope and moves what it defined into the scope
    /// below it, dropping what it printed. Errors carry `exec_line`, or line 0. A module that
    /// could not be read is an error; one already imported under that name is not run again.
    /// With fewer than two scopes nothing can take the definitions: an internal error.
    pub fn import_source(&mut self, mod_name: &String, source: Result<String, ()>, exec_line: Option<usize>) -> (res: Result<(), RuntimeError>)
        requires
            old(self).wf(),
        ensures
            final(self).wf(),
            final(self).grows_from(old(self)),
            res is Ok ==> final(self).output_lines() == old(self).output_lines(),
            res is Ok ==> final(self).imported(mod_name@),
            old(self).imported(mod_name@) ==> *final(self) == *old(self),
            res matches Err(e) ==> e.line == (match exec_line { Some(l) => l, None => 0 }),
            source is Err ==> *final(self) == *old(self)
                && (res matches Err(e) && e.msg@ == "module "@ + mod_name@ + " does not exist"@),
            source is Ok && old(self).top_depth() < 0x1_0000_0000 && old(self).imported(mod_name@) ==> res is Ok,
            source matches Ok(text) ==> ({
                let b = vstd::utf8::encode_utf8(text@);
                !old(self).imported(mod_name@) && old(self).top_depth() < 0x1_0000_0000 && old(self).scope_count() >= 2
                    && old(self).module_count() < usize::MAX - 1 && b.len() <= u32::MAX && usize::MAX == u64::MAX
                    && lex_from(b, 0).1 is None && old(self).plain_top()
                    ==> old(self).module_result(b, res is Ok)
            }),
    {
        let line = match exec_line {
            Some(l) => l,
            None => 0,
        };
        if self.locals[self.locals.len() - 1].stack_depth >= 0x1_0000_0000 {
            return match source {
                Ok(_) => Err(internal(line)),
                Err(()) => Err(error(line, text3("module ", mod_name.as_str(), " does not exist"))),
            };
        }
        let ghost m = self.mods_left();
        let ghost f = depth_limit() - self.top_depth();
        self.load_module(mod_name, source, line, Ghost(m), Ghost(f))
    }

    /// Runs the module text `source` (`Err(())` where it could not be read) under the name
    /// `mod_name`, in the innermost scope, and moves what it defined into the scope below it;
    /// what it printed is dropped. A module already loaded under that name is not run again.
    fn load_module(&mut self, mod_name: &String, source: Result<String, ()>, line: usize, Ghost(mods): Ghost<int>, Ghost(fuel): Ghost<int>) -> (res: Result<(), RuntimeError>)
        requires
            old(self).wf(),
            mods == old(self).mods_left(),
            old(self).top_depth() < depth_limit(),
            fuel == depth_limit() - old(self).top_depth(),
        ensures
            final(self).wf(),
            final(self).grows_from(old(self)),
            res is Ok ==> final(self).frame() == old(self).frame(),
            res is Ok ==> final(self).locals@.len() == old(self).locals@.len(),
            res is Ok ==> final(self).output_lines() == old(self).output_lines(),
            res is Ok ==> exists|j: int| 0 <= j < final(self).module@.len() && (#[trigger] final(self).module@[j])@ == mod_name@,
            (exists|j: int| 0 <= j < old(self).module@.len() && (#[trigger] old(self).module@[j])@ == mod_name@)
                ==> *final(self) == *old(self),
            res matches Err(e) ==> e.line == line,
            source is Err ==> *final(self) == *old(self)
                && (res matches Err(e) && e.msg@ == "module "@ + mod_name@ + " does not exist"@),
            source is Ok && (exists|j: int| 0 <= j < old(self).module@.len() && (#[trigger] old(self).module@[j])@ == mod_name@)
                ==> res is Ok,
            source matches Ok(text) ==> ({
                let b = vstd::utf8::encode_utf8(text@);
                !old(self).imported(mod_name@) && old(self).locals@.len() >= 2 && old(self).module@.len() < usize::MAX - 1
                    && b.len() <= u32::MAX && usize::MAX == u64::MAX && lex_from(b, 0).1 is None && old(self).plain_top()
                    ==> old(self).module_result(b, res is Ok)
            }),
        decreases mods, fuel, 0int, Inst::Empty,
    {
        let source = match source {
            Ok(src) => src,
            Err(()) => return Err(error(line, text3("module ", mod_name.as_str(), " does not exist"))),
        };
        if !self.has_module(mod_name) {
            if self.module.len() >= usize::MAX - 1 || source.as_str().as_bytes().len() > u32::MAX as usize {
                return Err(internal(line));
            }
            let ghost k0 = self.module@.len();
            self.module.push(mod_name.clone());
            let ghost pushed = self.module@[k0 as int];
            let last_output = self.output.len();
            let ghost b = vstd::utf8::encode_utf8(source@);
            let ghost good = old(self).locals@.len() >= 2 && b.len() <= u32::MAX && usize::MAX == u64::MAX
                && lex_from(b, 0).1 is None && old(self).plain_top();
            let ghost s1: Self = *self;
            proof {
                assert(s1.read_since(old(self)));
            }
            let mut compiler = Compiler::new(source.as_str());
            let cr = compiler.compile();
            let ghost tk = choose|tk: Seq<(Loc, Token, Loc)>| lexed(b, tk, None) && compile_result(tk, cr);
            proof {
                if good {
                    assert(lexed(b, tk, None) && compile_result(tk, cr));
                }
            }
            let ast = match cr {
                Ok(ast) => ast,
                Err(ce) => return Err(import_error(line, GlobalError::CE(ce))),
            };
            let ghost arith = forall|i: int| 0 <= i < ast@.len() ==> arith_inst(#[trigger] ast@[i]);
            proof {
                if good {
                    match prep(lexed_tokens(tk)) {
                        Some(st) => {
                            if call_free(st.0) {
                                let pg = program(st.0)->0;
                                if forall|i: int| 0 <= i < pg.len() ==> arith_item(#[trigger] pg[i]) {
                                    assert forall|i: int| 0 <= i < ast@.len() implies arith_inst(#[trigger] ast@[i]) by {
                                        assert(arith_item(pg[i]));
                                    }
                                    s1.lemma_outputs_read(old(self), ast@);
                                }
                            }
                        },
                        None => {},
                    }
                }
            }
            let ghost m = self.mods_left();
            match self.exec_module(&ast, Ghost(m), Ghost(fuel)) {
                Ok(()) => {},
                Err(ge) => return Err(import_error(line, ge)),
            }
            proof {
                if good && arith {
                    assert(self.locals == s1.locals);
                    assert(self.plain_top());
                }
            }
            proof {
                lemma_depths_len(self.locals@);
                lemma_depths_len(old(self).locals@);
            }
            self.out_buffer = String::new();
            if self.locals.len() < 2 {
                return Err(internal(line));
            }
            match self.import_by_scope(mod_name, line) {
                Ok(()) => {},
                Err(err) => return Err(err),
            }
            self.output.truncate(last_output);
            proof {
                assert(self.output@ =~= old(self).output@);
                assert(self.module@[k0 as int] == pushed);
                assert(pushed@ == mod_name@);
            }
        }
        Ok(())
    }

    /// Runs one instruction of a program (see `exec_inst`).
    fn exec_line(&mut self, inst: &Inst, line: usize, Ghost(mods): Ghost<int>, Ghost(fuel): Ghost<int>) -> (res: Result<usize, RuntimeError>)
        requires
            old(self).wf(),
            mods == old(self).mods_left(),
            old(self).top_depth() < depth_limit(),
            fuel == depth_limit() - old(self).top_depth(),
        ensures
            final(self).wf(),
            final(self).grows_from(old(self)),
            res matches Ok(h) ==> h < final(self).cells@.len() && final(self).frame() == old(self).frame(),
            inst matches Inst::Expr(Expr::Var(n)) ==> {
                &&& *final(self) == *old(self)
                &&& res is Ok <==> old(self).var_cell(n@) is Some
                &&& res matches Ok(h) ==> old(self).var_cell(n@) == Some(h)
            },
            arith_inst(*inst) ==> final(self).only_read(old(self))
                && (res is Ok <==> old(self).arith_eval_inst(*inst) is Some)
                && (res matches Ok(h) ==> Some(final(self).cells@[h as int]@) == old(self).arith_eval_inst(*inst)),
            inst matches Inst::Assign(Expr::Var(n), rhs) ==> arith_expr(*rhs)
                && literal_value(vstd::utf8::encode_utf8(n@)) is None ==> {
                &&& res is Ok <==> old(self).arith_eval(*rhs) is Some && old(self).builtin.var_of(n@) is None
                &&& res matches Ok(h) ==> Some(final(self).cells@[h as int]@) == old(self).arith_eval(*rhs)
                    && final(self).assigned(old(self), n@, h)
            },
        decreases mods, fuel, 3int, Inst::Empty,
    {
        self.exec_inst(inst, line, Ghost(mods), Ghost(fuel))
    }

    /// Reading steps do not change what a program of arithmetic instructions prints.
    proof fn lemma_outputs_read(&self, old: &Self, ast: Seq<Inst>)
        requires
            old.wf(),
            self.read_since(old),
            forall|i: int| 0 <= i < ast.len() ==> arith_inst(#[trigger] ast[i]),
        ensures
            self.arith_outputs(ast) == old.arith_outputs(ast),
        decreases ast.len(),
    {
        reveal_with_fuel(Runtime::arith_outputs, 1);
        if ast.len() > 0 {
            let p = ast.drop_last();
            assert forall|i: int| 0 <= i < p.len() implies arith_inst(#[trigger] p[i]) by {
                assert(p[i] == ast[i]);
            }
            self.lemma_outputs_read(old, p);
            assert(arith_inst(ast[ast.len() - 1]));
            Self::lemma_read_keeps_eval_inst(self, old, ast.last());
        }
    }

    proof fn lemma_outputs_none(&self, ast: Seq<Inst>)
        ensures
            self.arith_outputs(ast.take(0)) == Some(Seq::<Seq<char>>::empty()),
    {
        reveal_with_fuel(Runtime::arith_outputs, 1);
        assert(ast.take(0) =~= Seq::<Inst>::empty());
    }

    proof fn lemma_outputs_next(&self, ast: Seq<Inst>, k: int)
        requires
            0 <= k < ast.len(),
        ensures
            self.arith_outputs(ast.take(k + 1)) == (match self.arith_outputs(ast.take(k)) {
                Some(p) => match self.arith_eval_inst(ast[k]) {
                    Some(v) => if crate::var::is_displayable(v) && usize::MAX == u64::MAX {
                        let t = crate::var::display_text(v, self.env.precision as nat);
                        Some(if t.len() == 0 { p } else { p.push(t) })
                    } else {
                        None
                    },
                    None => None,
                },
                None => None,
            }),
    {
        reveal_with_fuel(Runtime::arith_outputs, 1);
        assert(ast.take(k + 1).drop_last() =~= ast.take(k));
        assert(ast.take(k + 1).last() == ast[k]);
    }

    /// One printed line of a program of arithmetic instructions: the output so far stays what
    /// `arith_outputs` gives for the lines run.
    proof fn lemma_print_step(old: &Self, s0: &Self, s1: &Self, fin: &Self, ast: Seq<Inst>, idx: int, v: (VarType, Seq<u8>))
        requires
            old.wf(),
            0 <= idx < ast.len(),
            arith_inst(ast[idx]),
            s0.read_since(old),
            old.arith_outputs(ast.take(idx)) is Some,
            s0.output@.len() == old.output@.len() + old.arith_outputs(ast.take(idx))->0.len(),
            forall|j: int| 0 <= j < old.arith_outputs(ast.take(idx))->0.len()
                ==> (#[trigger] s0.output@[old.output@.len() + j])@ == old.arith_outputs(ast.take(idx))->0[j],
            s1.only_read(s0),
            Some(v) == s0.arith_eval_inst(ast[idx]),
            crate::var::is_displayable(v),
            usize::MAX == u64::MAX,
            fin.read_since(s1),
            ({
                let t = crate::var::display_text(v, s1.env.precision as nat);
                &&& fin.output@.len() == s1.output@.len() + (if t.len() == 0 { 0int } else { 1int })
                &&& forall|i: int| 0 <= i < s1.output@.len() ==> fin.output@[i] == s1.output@[i]
                &&& t.len() > 0 ==> fin.output@.last()@ == t
            }),
        ensures
            fin.read_since(old),
            old.arith_outputs(ast.take(idx + 1)) is Some,
            fin.output@.len() == old.output@.len() + old.arith_outputs(ast.take(idx + 1))->0.len(),
            forall|j: int| 0 <= j < old.arith_outputs(ast.take(idx + 1))->0.len()
                ==> (#[trigger] fin.output@[old.output@.len() + j])@ == old.arith_outputs(ast.take(idx + 1))->0[j],
    {
        Self::lemma_read_keeps_eval_inst(s0, old, ast[idx]);
        old.lemma_outputs_next(ast, idx);
        Self::lemma_read_since_trans(s1, s0, old);
        Self::lemma_read_since_trans(fin, s1, old);
        let p = old.arith_outputs(ast.take(idx))->0;
        let q = old.arith_outputs(ast.take(idx + 1))->0;
        assert forall|j: int| 0 <= j < q.len() implies (#[trigger] fin.output@[old.output@.len() + j])@ == q[j] by {
            if j < p.len() {
                assert(s0.output@[old.output@.len() + j]@ == p[j]);
                assert(fin.output@[old.output@.len() + j] == s1.output@[old.output@.len() + j]);
            }
        }
    }

    /// The loop of `exec_ast`, at the current call depth.
    #[verifier::spinoff_prover]
    #[verifier::rlimit(60)]
    fn exec_module(&mut self, ast: &Vec<Inst>, Ghost(mods): Ghost<int>, Ghost(fuel): Ghost<int>) -> (res: Result<(), GlobalError>)
        requires
            old(self).wf(),
            mods == old(self).mods_left(),
            old(self).top_depth() < depth_limit(),
            fuel == depth_limit() - old(self).top_depth(),
        ensures
            final(self).wf(),
            final(self).grows_from(old(self)),
            res is Ok ==> final(self).frame() == old(self).frame(),
            res matches Err(e) ==> e is RE,
            res is Err ==> final(self).locals@.len() == 1 || final(self).locals@.last().name@ == "__global__"@,
            ast@.len() == 0 ==> res is Ok && *final(self) == *old(self),
            old(self).single_read(ast@) is Some ==> {
                let v = old(self).cells@[old(self).single_read(ast@)->0 as int]@;
                let t = crate::var::display_text(v, old(self).env.precision as nat);
                &&& res is Ok <==> crate::var::is_displayable(v) && usize::MAX == u64::MAX
                &&& res is Ok ==> final(self).output@.len() == old(self).output@.len() + (if t.len() == 0 { 0int } else { 1int })
                &&& res is Ok ==> forall|i: int| 0 <= i < old(self).output@.len() ==> final(self).output@[i] == old(self).output@[i]
                &&& res is Ok && t.len() > 0 ==> final(self).output@.last()@ == t
            },
            (forall|i: int| 0 <= i < ast@.len() ==> arith_inst(#[trigger] ast@[i])) ==> {
                let outs = old(self).arith_outputs(ast@);
                &&& res is Ok <==> outs is Some
                &&& res is Ok ==> final(self).output@.len() == old(self).output@.len() + outs->0.len()
                &&& res is Ok ==> forall|j: int| 0 <= j < outs->0.len() ==> (#[trigger] final(self).output@[old(self).output@.len() + j])@ == outs->0[j]
                &&& res is Ok ==> final(self).out_buffer == old(self).out_buffer
                &&& res is Ok ==> final(self).read_since(old(self))
            },
            (forall|i: int| 0 <= i < ast@.len() ==> plain_line(#[trigger] ast@[i])) ==> {
                let po = old(self).prog_outputs(ast@);
                &&& res is Ok <==> po is Some
                &&& res is Ok ==> final(self).output@.len() == old(self).output@.len() + (po->0).2.len()
                &&& res is Ok ==> forall|j: int| 0 <= j < (po->0).2.len() ==> (#[trigger] final(self).output@[old(self).output@.len() + j])@ == (po->0).2[j]
                &&& res is Ok ==> final(self).out_buffer == old(self).out_buffer
            },
        decreases mods, fuel, 4int, Inst::Empty,
    {
        let ghost all_arith = forall|i: int| 0 <= i < ast@.len() ==> arith_inst(#[trigger] ast@[i]);
        let ghost all_plain = forall|i: int| 0 <= i < ast@.len() ==> plain_line(#[trigger] ast@[i]);
        proof {
            old(self).lemma_outputs_none(ast@);
            old(self).lemma_prog_empty(ast@);
            old(self).lemma_overlay_refl();
        }
        let mut idx: usize = 0;
        while idx < ast.len()
            invariant
                self.wf(),
                self.grows_from(old(self)),
                self.frame() == old(self).frame(),
                self.top_depth() == old(self).top_depth(),
                old(self).wf(),
                self.top_depth() < depth_limit(),
                fuel == depth_limit() - old(self).top_depth(),
                mods == old(self).mods_left(),
                self.mods_left() <= mods,
                idx <= ast@.len(),
                idx == 0 ==> *self == *old(self),
                idx == 1 && old(self).single_read(ast@) is Some ==> {
                    let v = old(self).cells@[old(self).single_read(ast@)->0 as int]@;
                    let t = crate::var::display_text(v, old(self).env.precision as nat);
                    &&& crate::var::is_displayable(v) && usize::MAX == u64::MAX
                    &&& self.output@.len() == old(self).output@.len() + (if t.len() == 0 { 0int } else { 1int })
                    &&& forall|i: int| 0 <= i < old(self).output@.len() ==> self.output@[i] == old(self).output@[i]
                    &&& t.len() > 0 ==> self.output@.last()@ == t
                },
                all_arith == (forall|i: int| 0 <= i < ast@.len() ==> arith_inst(#[trigger] ast@[i])),
                all_plain == (forall|i: int| 0 <= i < ast@.len() ==> plain_line(#[trigger] ast@[i])),
                all_plain ==> {
                    let po = old(self).prog_outputs(ast@.take(idx as int));
                    &&& po is Some
                    &&& self.overlays(old(self), (po->0).0, (po->0).1)
                    &&& self.output@.len() == old(self).output@.len() + (po->0).2.len()
                    &&& forall|j: int| 0 <= j < (po->0).2.len() ==> (#[trigger] self.output@[old(self).output@.len() + j])@ == (po->0).2[j]
                },
                all_arith ==> {
                    let outs = old(self).arith_outputs(ast@.take(idx as int));
                    &&& self.read_since(old(self))
                    &&& outs is Some
                    &&& self.output@.len() == old(self).output@.len() + outs->0.len()
                    &&& forall|j: int| 0 <= j < outs->0.len() ==> (#[trigger] self.output@[old(self).output@.len() + j])@ == outs->0[j]
                },
            decreases ast@.len() - idx,
        {
            let ghost s0: Self = *self;
            let ghost st = old(self).prog_outputs(ast@.take(idx as int))->0;
            proof {
                if all_plain {
                    assert(plain_line(ast@[idx as int]));
                    old(self).lemma_prog_next(ast@, idx as int);
                }
                if all_arith {
                    assert(arith_inst(ast@[idx as int]));
                    Self::lemma_read_keeps_eval_inst(self, old(self), ast@[idx as int]);
                    old(self).lemma_outputs_next(ast@, idx as int);
                }
            }
            let to_print = match &ast[idx] {
                Inst::Assign(_, _) => self.env.print_set_inst == 1,
                _ => true,
            };
            let ghost m = self.mods_left();
            match self.exec_line(&ast[idx], idx, Ghost(m), Ghost(fuel)) {
                Ok(h) => {
                    proof {
                        lemma_depths_drop(self.locals@);
                        lemma_depths_drop(old(self).locals@);
                    }
                    proof {
                        if all_plain {
                            Self::lemma_line_exec(old(self), &s0, self, st.0, st.1, ast@[idx as int], h, true);
                        }
                    }
                    if !self.cells[h].can_display() || !(usize::MAX as u64 == u64::MAX) {
                        proof {
                            if all_arith {
                                old(self).lemma_outputs_prefix_none(ast@, idx + 1);
                            }
                            if all_plain {
                                old(self).lemma_prog_prefix_none(ast@, idx + 1);
                            }
                        }
                        self.unwind();
                        return Err(GlobalError::RE(error(idx, String::from_str("value cannot be shown"))));
                    }
                    let ghost s1: Self = *self;
                    let out = self.cells[h].to_text(self.env.precision as u8);
                    let none = String::new();
                    proof {
                        assert(none@.len() == 0);
                        if out@.len() == 0 {
                            assert(out@ =~= none@);
                        }
                        assert((self.env.precision as u8) as nat == self.env.precision as nat);
                    }
                    if to_print && !(out == none) {
                        self.output.push(out);
                    }
                    proof {
                        if all_arith {
                            assert(self.read_since(&s1));
                            Self::lemma_print_step(old(self), &s0, &s1, self, ast@, idx as int, s1.cells@[h as int]@);
                        }
                        if all_plain {
                            let r = old(self).line_step(st.0, st.1, ast@[idx as int])->0;
                            assert(self.read_since(&s1));
                            Self::lemma_overlay_read(self, &s1, old(self), r.0, r.1);
                            assert(s1.output == s0.output);
                            let p = st.2;
                            let q = (old(self).prog_outputs(ast@.take(idx + 1))->0).2;
                            assert forall|j: int| 0 <= j < q.len() implies (#[trigger] self.output@[old(self).output@.len() + j])@ == q[j] by {
                                if j < p.len() {
                                    assert(s0.output@[old(self).output@.len() + j]@ == p[j]);
                                }
                            }
                        }
                    }
                },
                Err(err) => {
                    proof {
                        if all_arith {
                            old(self).lemma_outputs_prefix_none(ast@, idx + 1);
                        }
                        if all_plain {
                            Self::lemma_line_exec(old(self), &s0, self, st.0, st.1, ast@[idx as int], 0, false);
                            old(self).lemma_prog_prefix_none(ast@, idx + 1);
                        }
                    }
                    self.unwind();
                    return Err(GlobalError::RE(err));
                },
            }
            idx = idx + 1;
        }
        proof {
            assert(ast@.take(idx as int) =~= ast@);
        }
        Ok(())
    }

    /// Compiles and runs a program; all the output lines so far (the unfinished line ended).
    pub fn execute(&mut self, source: &str) -> (res: Result<Vec<String>, GlobalError>)
        requires
            old(self).wf(),
            source.spec_bytes().len() <= u32::MAX,
        ensures
            final(self).wf(),
            final(self).grows_from(old(self)),
            old(self).output_lines().len() <= final(self).output_lines().len(),
            forall|i: int| 0 <= i < old(self).output_lines().len() ==> final(self).output_lines()[i] == old(self).output_lines()[i],
            res matches Err(GlobalError::CE(_)) ==> final(self).output_lines() == old(self).output_lines()
                && final(self).same_except_output(old(self)) && final(self).pending() == old(self).pending(),
            res matches Ok(v) ==> v@ == final(self).output_lines(),
            lex_from(source.spec_bytes(), 0).1 is Some ==> res matches Err(GlobalError::CE(_)),
            old(self).top_depth() < 0x1_0000_0000 && (res matches Err(GlobalError::RE(_)))
                ==> final(self).at_global(),
            final(self).base_name() == old(self).base_name(),
            old(self).top_depth() < 0x1_0000_0000 && (res matches Err(GlobalError::RE(_))) && old(self).base_name() == "__global__"@
                ==> final(self).top_name() == "__global__"@,
            lex_from(source.spec_bytes(), 0).1 is None && usize::MAX == u64::MAX ==> exists|tk: Seq<(Loc, Token, Loc)>| {
                &&& #[trigger] lexed(source.spec_bytes(), tk, None)
                &&& prep(lexed_tokens(tk)) is None ==> (res matches Err(GlobalError::CE(_)))
                &&& (prep(lexed_tokens(tk)) matches Some(st) ==> call_free(st.0) ==> {
                    &&& program(st.0) is None ==> (res matches Err(GlobalError::CE(_)))
                    &&& (program(st.0) matches Some(pg) ==> old(self).top_depth() < 0x1_0000_0000
                        && (forall|i: int| 0 <= i < pg.len() ==> arith_item(#[trigger] pg[i])) ==> exists|ast: Seq<Inst>| {
                        let outs = old(self).arith_outputs(ast);
                        let n = old(self).output_lines().len();
                        &&& #[trigger] ast_matches(ast, pg)
                        &&& res is Ok <==> outs is Some
                        &&& res is Ok ==> final(self).output_lines().len()
                            == n + outs->0.len() + (if old(self).pending().len() == 0 { 0int } else { 1int })
                        &&& res is Ok ==> forall|j: int| 0 <= j < outs->0.len()
                            ==> (#[trigger] final(self).output_lines()[n + j])@ == outs->0[j]
                        &&& res is Ok && old(self).pending().len() > 0 ==> final(self).output_lines().last()@ == old(self).pending()
                    })
                    &&& (program(st.0) matches Some(pg) ==> old(self).top_depth() < 0x1_0000_0000
                        && (forall|i: int| 0 <= i < pg.len() ==> plain_item(#[trigger] pg[i])) ==> exists|ast: Seq<Inst>| {
                        let po = old(self).prog_outputs(ast);
                        let n = old(self).output_lines().len();
                        &&& #[trigger] ast_matches(ast, pg)
                        &&& res is Ok <==> po is Some
                        &&& res is Ok ==> final(self).output_lines().len()
                            == n + (po->0).2.len() + (if old(self).pending().len() == 0 { 0int } else { 1int })
                        &&& res is Ok ==> forall|j: int| 0 <= j < (po->0).2.len()
                            ==> (#[trigger] final(self).output_lines()[n + j])@ == (po->0).2[j]
                        &&& res is Ok && old(self).pending().len() > 0 ==> final(self).output_lines().last()@ == old(self).pending()
                    })
                })
            },
    {
        let mut compiler = Compiler::new(source);
        let cr = compiler.compile();
        let ghost tk = choose|tk: Seq<(Loc, Token, Loc)>| lexed(source.spec_bytes(), tk, None) && compile_result(tk, cr);
        proof {
            if lex_from(source.spec_bytes(), 0).1 is None && usize::MAX == u64::MAX {
                assert(lexed(source.spec_bytes(), tk, None) && compile_result(tk, cr));
            }
        }
        let ast = match cr {
            Ok(ast) => ast,
            Err(ce) => return Err(GlobalError::CE(ce)),
        };
        proof {
            if lex_from(source.spec_bytes(), 0).1 is None && usize::MAX == u64::MAX {
                match prep(lexed_tokens(tk)) {
                    Some(st) => {
                        if call_free(st.0) {
                            let pg = program(st.0)->0;
                            if forall|i: int| 0 <= i < pg.len() ==> arith_item(#[trigger] pg[i]) {
                                assert forall|i: int| 0 <= i < ast@.len() implies arith_inst(#[trigger] ast@[i]) by {
                                    assert(arith_item(pg[i]));
                                }
                            }
                            if forall|i: int| 0 <= i < pg.len() ==> plain_item(#[trigger] pg[i]) {
                                assert forall|i: int| 0 <= i < ast@.len() implies plain_line(#[trigger] ast@[i]) by {
                                    assert(plain_item(pg[i]));
                                }
                            }
                        }
                    },
                    None => {},
                }
            }
        }
        match self.exec_ast(&ast) {
            Ok(()) => {},
            Err(err) => return Err(err),
        }
        let ghost s1: Self = *self;
        let none = String::new();
        proof {
            assert(none@.len() == 0);
            if self.out_buffer@.len() == 0 {
                assert(self.out_buffer@ =~= none@);
            }
        }
        if !(self.out_buffer == none) {
            let mut line = String::new();
            std::mem::swap(&mut line, &mut self.out_buffer);
            self.output.push(line);
        }
        proof {
            assert forall|j: int| 0 <= j < s1.output@.len() implies self.output@[j] == s1.output@[j] by {}
        }
        Ok(copy_names(&self.output))
    }
}


/// The value of a number literal's bytes, where they fit the limits on literals.
#[verifier::opaque]
pub open spec fn literal_value(b: Seq<u8>) -> Option<(VarType, Seq<u8>)> {
    if crate::big_num::parse::literal_fits(b) && usize::MAX == u64::MAX { crate::var::lit_value(b) } else { None }
}

/// A value of an integer type.
pub open spec fn int_typed(v: (VarType, Seq<u8>)) -> bool {
    v.0 == VarType::I32 || v.0 == VarType::I64
}

/// An integer `x` to the power of an integer `y` (a negative exponent counts as its
/// magnitude); `None` where the runtime refuses it.
pub open spec fn int_power_view(x: (VarType, Seq<u8>), y: (VarType, Seq<u8>)) -> Option<(VarType, Seq<u8>)> {
    let e = crate::var::var_i64(y);
    let m: int = if e < 0 { -e } else { e as int };
    if ((y.0 == VarType::I32 && y.1.len() >= 4) || (y.0 == VarType::I64 && y.1.len() >= 8))
        && e != i64::MIN && usize::MAX == u64::MAX {
        power_steps(x, (VarType::I32, crate::var::i32_le(1i32)), m as nat)
    } else {
        None
    }
}

/// An item of a compiled program that is a plain line (the number 0 where it is `None`).
pub open spec fn plain_item(x: Option<Inst>) -> bool {
    match x {
        Some(i) => plain_line(i),
        None => true,
    }
}

/// An item of a compiled program that is arithmetic (the number 0 where it is `None`).
pub open spec fn arith_item(x: Option<Inst>) -> bool {
    match x {
        Some(i) => arith_inst(i),
        None => true,
    }
}

/// A line of a program whose effect the runtime states: an arithmetic instruction, or an
/// assignment of an arithmetic value to a variable whose name does not read as a number.
pub open spec fn plain_line(i: Inst) -> bool {
    arith_inst(i) || (i matches Inst::Assign(Expr::Var(n), rhs) && arith_expr(rhs)
        && literal_value(vstd::utf8::encode_utf8(n@)) is None)
}

/// The last place of a name among the parameters.
pub open spec fn param_at(ps: Seq<Seq<char>>, n: Seq<char>) -> Option<int>
    decreases ps.len(),
{
    if ps.len() == 0 {
        None
    } else if ps.last() == n {
        Some(ps.len() - 1)
    } else {
        param_at(ps.drop_last(), n)
    }
}

proof fn lemma_param_at(ps: Seq<Seq<char>>, n: Seq<char>)
    ensures
        param_at(ps, n) matches Some(j) ==> 0 <= j < ps.len() && ps[j] == n
            && forall|i: int| j < i < ps.len() ==> ps[i] != n,
        param_at(ps, n) is None ==> forall|i: int| 0 <= i < ps.len() ==> ps[i] != n,
    decreases ps.len(),
{
    if ps.len() > 0 {
        lemma_param_at(ps.drop_last(), n);
        if ps.last() != n {
            assert forall|i: int| 0 <= i < ps.len() - 1 implies ps[i] == ps.drop_last()[i] by {}
        }
    }
}

/// Every variable an arithmetic expression reads is a parameter.
pub open spec fn reads_params(e: Expr, ps: Seq<Seq<char>>) -> bool
    decreases e,
{
    match e {
        Expr::Var(n) => param_at(ps, n@) is Some,
        Expr::Inst(i) => reads_params_inst(*i, ps),
        _ => true,
    }
}

/// Every variable an arithmetic instruction reads is a parameter.
pub open spec fn reads_params_inst(i: Inst, ps: Seq<Seq<char>>) -> bool
    decreases i,
{
    match i {
        Inst::Expr(x) => reads_params(x, ps),
        Inst::Neg(x) => reads_params(x, ps),
        Inst::Add(l, r) => reads_params(l, ps) && reads_params(r, ps),
        Inst::Sub(l, r) => reads_params(l, ps) && reads_params(r, ps),
        Inst::Mul(l, r) => reads_params(l, ps) && reads_params(r, ps),
        Inst::Div(l, r) => reads_params(l, ps) && reads_params(r, ps),
        Inst::Mod(l, r) => reads_params(l, ps) && reads_params(r, ps),
        _ => true,
    }
}

/// The value of an arithmetic instruction from the values `a` and `b` of its operands (see
/// `arith_eval`): a product whose left side is the integer 0 is that side, one whose left side
/// is the integer 1 is the right side.
pub open spec fn inst_value(i: Inst, a: Option<(VarType, Seq<u8>)>, b: Option<(VarType, Seq<u8>)>) -> Option<(VarType, Seq<u8>)> {
    match i {
        Inst::Expr(_) => a,
        Inst::Neg(_) => match a {
            Some(x) => if crate::var::is_number(x) { Some(crate::var::neg_view(x)) } else { None },
            None => None,
        },
        Inst::Mul(_, _) => match a {
            Some(x) => if x.0 == VarType::Empty || x.0 == VarType::Sequence {
                None
            } else if int_value(x) == Some(0int) {
                Some(x)
            } else {
                match b {
                    Some(y) => if int_value(x) == Some(1int) {
                        Some(y)
                    } else if crate::var::is_number(x) && crate::var::is_number(y) && usize::MAX == u64::MAX {
                        Some(crate::var::arith_view(ArithOp::Mul, x, y))
                    } else {
                        None
                    },
                    None => None,
                }
            },
            None => None,
        },
        Inst::Add(_, _) => arith_pair(ArithOp::Add, a, b),
        Inst::Sub(_, _) => arith_pair(ArithOp::Sub, a, b),
        Inst::Div(_, _) => arith_pair(ArithOp::Div, a, b),
        Inst::Mod(_, _) => arith_pair(ArithOp::Rem, a, b),
        _ => None,
    }
}

/// The integer of an `I32` or `I64` value.
pub open spec fn int_value(v: (VarType, Seq<u8>)) -> Option<int> {
    if (v.0 == VarType::I32 && v.1.len() >= 4) || (v.0 == VarType::I64 && v.1.len() >= 8) {
        Some(crate::var::var_i64(v) as int)
    } else {
        None
    }
}

/// A binary operation on two values, where both are numbers fit for arithmetic.
pub open spec fn arith_pair(op: ArithOp, a: Option<(VarType, Seq<u8>)>, b: Option<(VarType, Seq<u8>)>) -> Option<(VarType, Seq<u8>)> {
    match (a, b) {
        (Some(x), Some(y)) => if crate::var::is_number(x) && crate::var::is_number(y) && usize::MAX == u64::MAX {
            Some(crate::var::arith_view(op, x, y))
        } else {
            None
        },
        _ => None,
    }
}

/// An arithmetic expression: variables (whose names do not read as number literals), number literals,
/// unary minus and `+ - * / mod`.
pub open spec fn arith_expr(e: Expr) -> bool
    decreases e,
{
    match e {
        Expr::Var(n) => literal_value(vstd::utf8::encode_utf8(n@)) is None,
        Expr::Number(_) => true,
        Expr::Inst(i) => arith_inst(*i),
        _ => false,
    }
}

/// An arithmetic instruction (see `arith_expr`).
pub open spec fn arith_inst(i: Inst) -> bool
    decreases i,
{
    match i {
        Inst::Expr(e) => arith_expr(e),
        Inst::Neg(e) => arith_expr(e),
        Inst::Add(l, r) | Inst::Sub(l, r) | Inst::Mul(l, r) | Inst::Div(l, r) | Inst::Mod(l, r) => arith_expr(l) && arith_expr(r),
        _ => false,
    }
}

/// Alike arithmetic expressions are equal (they hold no calls).
proof fn lemma_same_arith_expr(a: Expr, b: Expr)
    requires
        crate::scope::same_expr(a, b),
        arith_expr(a),
    ensures
        a == b,
    decreases a,
{
    match a {
        Expr::Inst(x) => {
            match b {
                Expr::Inst(y) => {
                    lemma_same_arith_inst(*x, *y);
                },
                _ => {},
            }
        },
        _ => {},
    }
}

/// Alike arithmetic instructions are equal.
proof fn lemma_same_arith_inst(a: Inst, b: Inst)
    requires
        crate::scope::same_inst(a, b),
        arith_inst(a),
    ensures
        a == b,
    decreases a,
{
    match a {
        Inst::Expr(x) => { if let Inst::Expr(y) = b { lemma_same_arith_expr(x, y); } },
        Inst::Neg(x) => { if let Inst::Neg(y) = b { lemma_same_arith_expr(x, y); } },
        Inst::Add(x1, x2) => { if let Inst::Add(y1, y2) = b { lemma_same_arith_expr(x1, y1); lemma_same_arith_expr(x2, y2); } },
        Inst::Sub(x1, x2) => { if let Inst::Sub(y1, y2) = b { lemma_same_arith_expr(x1, y1); lemma_same_arith_expr(x2, y2); } },
        Inst::Mul(x1, x2) => { if let Inst::Mul(y1, y2) = b { lemma_same_arith_expr(x1, y1); lemma_same_arith_expr(x2, y2); } },
        Inst::Div(x1, x2) => { if let Inst::Div(y1, y2) = b { lemma_same_arith_expr(x1, y1); lemma_same_arith_expr(x2, y2); } },
        Inst::Mod(x1, x2) => { if let Inst::Mod(y1, y2) = b { lemma_same_arith_expr(x1, y1); lemma_same_arith_expr(x2, y2); } },
        _ => {},
    }
}

/// A dot at byte `j` that starts an extension: not the first byte, not behind a `/`.
pub open spec fn ext_dot(b: Seq<u8>, j: int) -> bool {
    0 < j < b.len() && b[j] == 46 && b[j - 1] != 47
}

/// Whether the last path component of `b` has an extension.
pub open spec fn ext_in(b: Seq<u8>) -> bool {
    exists|j: int| ext_dot(b, j) && (forall|k: int| j < k < b.len() ==> b[k] != 47)
}

/// The path of module `p` below the work path `w`, with `.mls` added when it has no extension.
pub open spec fn mod_file_path(w: Seq<char>, p: Seq<char>, has_ext: bool) -> Seq<char> {
    let path = if w.len() == 0 { p } else { w + "/"@ + p };
    if has_ext { path } else { path + ".mls"@ }
}

/// The name of an instruction that only reads a variable.
pub open spec fn prints_var(i: Inst) -> Option<Seq<char>> {
    match i {
        Inst::Expr(Expr::Var(n)) => Some(n@),
        _ => None,
    }
}

/// An addition, subtraction, division or remainder of two variables: the operation and the
/// two names.
pub open spec fn bin_vars(i: Inst) -> Option<(ArithOp, Seq<char>, Seq<char>)> {
    match i {
        Inst::Add(Expr::Var(x), Expr::Var(y)) => Some((ArithOp::Add, x@, y@)),
        Inst::Sub(Expr::Var(x), Expr::Var(y)) => Some((ArithOp::Sub, x@, y@)),
        Inst::Div(Expr::Var(x), Expr::Var(y)) => Some((ArithOp::Div, x@, y@)),
        Inst::Mod(Expr::Var(x), Expr::Var(y)) => Some((ArithOp::Rem, x@, y@)),
        _ => None,
    }
}

/// The error an import reports for an error of the module it runs.
fn import_error(line: usize, err: GlobalError) -> (r: RuntimeError)
    ensures
        r.line == line,
        r.msg@ == "\n\tImport Error:\n\t\t"@ + match err {
            GlobalError::CE(e) => "Compiler Error"@ + ": "@ + e.msg@,
            GlobalError::RE(e) => "Runtime Error"@ + ": "@ + e.msg@,
        },
{
    let m = String::from_str("\n\tImport Error:\n\t\t").concat(err.no_loc_info().as_str());
    error(line, m)
}

impl<F: FloatMath, M: ModSystem> Runtime<F, M> {
    /// Replaces the settings.
    pub fn set_settings(&mut self, env: Env)
        requires
            env.precision <= 15,
        ensures
            final(self).settings() == env,
            old(self).wf() ==> final(self).wf(),
            final(self).output_lines() == old(self).output_lines(),
    {
        self.env = env;
    }

    /// Sets the directory that module paths are relative to.
    pub fn set_work_path(&mut self, path: String)
        ensures
            final(self).work_dir() == path@,
            final(self).same_except_output(old(self)),
            final(self).pending() == old(self).pending(),
            final(self).wf() == old(self).wf(),
            final(self).output_lines() == old(self).output_lines(),
    {
        self.work_path = path;
    }

    /// Whether a module of that name has been imported.
    fn has_module(&self, name: &String) -> (r: bool)
        ensures
            r == exists|j: int| 0 <= j < self.module@.len() && (#[trigger] self.module@[j])@ == name@,
    {
        let mut i: usize = 0;
        while i < self.module.len()
            invariant
                i <= self.module@.len(),
                forall|j: int| 0 <= j < i ==> (#[trigger] self.module@[j])@ != name@,
            decreases self.module@.len() - i,
        {
            if self.module[i] == *name {
                return true;
            }
            i = i + 1;
        }
        false
    }

    /// The path of a module: below the work path, with the extension `.mls` added when its
    /// last component has none.
    fn path_of_module(&self, p: &String) -> (r: String)
        ensures
            r@ == mod_file_path(self.work_path@, p@, ext_in(vstd::utf8::encode_utf8(p@))),
    {
        let none = String::new();
        let path = if self.work_path == none {
            p.clone()
        } else {
            self.work_path.clone().concat("/").concat(p.as_str())
        };
        proof {
            assert(none@.len() == 0);
            if self.work_path@.len() == 0 {
                assert(self.work_path@ =~= none@);
            }
        }
        let b = p.as_str().as_bytes();
        let mut i = b.len();
        let mut has_ext = false;
        let mut stop = false;
        while i > 0 && !stop
            invariant
                i <= b@.len(),
                b@ == vstd::utf8::encode_utf8(p@),
                has_ext == exists|j: int| i <= j < b@.len() && #[trigger] ext_dot(b@, j),
                forall|k: int| i <= k < b@.len() ==> b@[k] != 47,
                stop ==> i > 0 && b@[i - 1] == 47,
            decreases i + (if stop { 0int } else { 1int }),
        {
            if b[i - 1] == 47 {
                stop = true;
            } else {
                let d = b[i - 1] == 46 && i - 1 > 0 && b[i - 2] != 47;
                proof {
                    assert(d == ext_dot(b@, i - 1));
                    if d {
                        assert(ext_dot(b@, (i - 1) as int));
                    } else {
                        assert forall|j: int| i - 1 <= j < b@.len() && ext_dot(b@, j) implies i <= j by {}
                    }
                }
                if d {
                    has_ext = true;
                }
                i = i - 1;
            }
        }
        proof {
            let bb = b@;
            if has_ext {
                let j = choose|j: int| i <= j < bb.len() && #[trigger] ext_dot(bb, j);
                assert(ext_dot(bb, j) && (forall|k: int| j < k < bb.len() ==> bb[k] != 47));
            } else {
                assert forall|j: int| #[trigger] ext_dot(bb, j) implies !(forall|k: int| j < k < bb.len() ==> bb[k] != 47) by {
                    if j >= i {
                    } else {
                        assert(i > 0 && bb[i - 1] == 47);
                        if j < i - 1 {
                            assert(bb[i - 1] == 47);
                        } else {
                            assert(bb[j] == 46);
                        }
                    }
                }
            }
            assert(has_ext == ext_in(bb));
        }
        if has_ext {
            path
        } else {
            path.concat(".mls")
        }
    }

    /// Moves the variables and functions the innermost scope (a module's) defined, but the one
    /// named `__module__`, into the scope below it; sequences move with their elements. A name
    /// that scope already has is refused.
    fn import_by_scope(&mut self, mod_name: &String, line: usize) -> (res: Result<(), RuntimeError>)
        requires
            old(self).wf(),
            old(self).locals@.len() >= 2,
        ensures
            final(self).wf(),
            final(self).grows_from(old(self)),
            final(self).frame() == old(self).frame(),
            final(self).locals@.len() == old(self).locals@.len(),
            res matches Err(e) ==> e.line == line,
            res is Ok ==> forall|j: int| 0 <= j < old(self).locals@.last().fun_table@.len()
                ==> (#[trigger] final(self).locals@[old(self).locals@.len() - 2].fun_of(old(self).locals@.last().fun_table@[j].0@))
                    == Some(old(self).locals@.last().fun_table@[j].1),
            res is Ok ==> forall|j: int| 0 <= j < old(self).locals@.last().var_table@.len()
                && old(self).locals@.last().var_table@[j].0@ != "__module__"@
                ==> (#[trigger] final(self).locals@[old(self).locals@.len() - 2].var_of(old(self).locals@.last().var_table@[j].0@)) is Some,
            old(self).plain_top() ==> res is Ok,
    {
        let ghost l0 = self.locals@;
        let mod_scope = self.locals.pop().unwrap();
        proof {
            assert(l0.last().within(self.cells@.len(), self.funs@.len()));
            assert forall|i: int| 0 <= i < self.locals@.len() implies #[trigger] self.locals@[i].within(self.cells@.len(), self.funs@.len()) by {
                assert(self.locals@[i] == l0[i]);
            }
            assert forall|i: int| 0 <= i < self.locals@.len() implies #[trigger] self.locals@[i].stack_depth <= 0x1_0000_0000 by {
                assert(self.locals@[i] == l0[i]);
            }
            lemma_depths_drop(l0);
        }
        let r = self.merge_scope(&mod_scope, mod_name, line);
        let ghost l1 = self.locals@;
        self.locals.push(mod_scope);
        proof {
            lemma_within_mono(mod_scope, old(self).cells@.len(), old(self).funs@.len(), self.cells@.len(), self.funs@.len());
            assert forall|i: int| 0 <= i < self.locals@.len() implies #[trigger] self.locals@[i].within(self.cells@.len(), self.funs@.len()) by {
                if i < self.locals@.len() - 1 {
                    assert(self.locals@[i] == l1[i]);
                }
            }
            assert forall|i: int| 0 <= i < self.locals@.len() implies #[trigger] self.locals@[i].stack_depth <= 0x1_0000_0000 by {
                if i < self.locals@.len() - 1 {
                    assert(self.locals@[i] == l1[i]);
                } else {
                    assert(l0.last().stack_depth <= 0x1_0000_0000);
                }
            }
            lemma_depths_push(l1, mod_scope);
            assert(depths(self.locals@) =~= depths(l0));
        }
        r
    }

    /// The merge of `import_by_scope`, into the innermost scope.
    fn merge_scope(&mut self, from: &Scope, mod_name: &String, line: usize) -> (res: Result<(), RuntimeError>)
        requires
            old(self).wf(),
            from.within(old(self).cells@.len(), old(self).funs@.len()),
        ensures
            final(self).wf(),
            final(self).grows_from(old(self)),
            final(self).frame() == old(self).frame(),
            final(self).locals@.len() == old(self).locals@.len(),
            res matches Err(e) ==> e.line == line,
            res is Ok ==> forall|j: int| 0 <= j < from.fun_table@.len()
                ==> (#[trigger] final(self).locals@.last().fun_of(from.fun_table@[j].0@)) == Some(from.fun_table@[j].1),
            res is Ok ==> forall|j: int| 0 <= j < from.var_table@.len() && from.var_table@[j].0@ != "__module__"@
                ==> (#[trigger] final(self).locals@.last().var_of(from.var_table@[j].0@)) is Some,
            from.fun_table@.len() == 0 && (forall|j: int| 0 <= j < from.var_table@.len()
                ==> (#[trigger] from.var_table@[j]).0@ == "__module__"@) ==> res is Ok,
    {
        let skip = String::from_str("__module__");
        let ghost plain = from.fun_table@.len() == 0 && (forall|j: int| 0 <= j < from.var_table@.len()
            ==> (#[trigger] from.var_table@[j]).0@ == "__module__"@);
        let mut i: usize = 0;
        while i < from.var_table.len()
            invariant
                self.wf(),
                self.grows_from(old(self)),
                self.frame() == old(self).frame(),
                self.locals@.len() == old(self).locals@.len(),
                self.cells@.len() == old(self).cells@.len(),
                self.funs@.len() == old(self).funs@.len(),
                from.within(old(self).cells@.len(), old(self).funs@.len()),
                i <= from.var_table@.len(),
                skip@ == "__module__"@,
                plain == (from.fun_table@.len() == 0 && (forall|j: int| 0 <= j < from.var_table@.len()
                    ==> (#[trigger] from.var_table@[j]).0@ == "__module__"@)),
                forall|j: int| 0 <= j < i && from.var_table@[j].0@ != "__module__"@
                    ==> (#[trigger] self.locals@.last().var_of(from.var_table@[j].0@)) is Some,
            decreases from.var_table@.len() - i,
        {
            let ghost vt0 = self.locals@.last().var_table@;
            let ghost top0 = self.locals@.last();
            let name = &from.var_table[i].0;
            let cell = from.var_table[i].1;
            proof {
                assert(from.var_table@[i as int].1 < self.cells@.len());
                if plain {
                    assert(from.var_table@[i as int].0@ == "__module__"@);
                }
            }
            if !(*name == skip) {
                let top = self.locals.len() - 1;
                if self.locals[top].has_var(name) {
                    return Err(error(line, text3("duplicate variable ", name.as_str(), " in module ").concat(mod_name.as_str())));
                }
                if self.cells[cell].get_type() == VarType::Sequence {
                    let fuel2 = self.cells.len();
                    match self.move_sequence(from, top, cell, line, fuel2) {
                        Ok(()) => {},
                        Err(err) => return Err(err),
                    }
                }
                proof {
                    lemma_depths_drop(self.locals@);
                    lemma_depths_drop(old(self).locals@);
                    assert(self.locals@.last().var_table@ == vt0);
                }
                let ghost vt1 = self.locals@.last();
                let nm = name.clone();
                self.bind_top(nm, cell);
                proof {
                    assert forall|j: int| 0 <= j < i + 1 && from.var_table@[j].0@ != "__module__"@
                        implies (#[trigger] self.locals@.last().var_of(from.var_table@[j].0@)) is Some by {
                        let k = from.var_table@[j].0@;
                        if k != name@ {
                            assert(j < i);
                            assert(top0.var_of(k) is Some);
                            assert(self.locals@.last().var_of(k) == vt1.var_of(k));
                            assert(vt1.var_of(k) == crate::scope::table_get(vt0, k));
                        }
                    }
                }
            }
            i = i + 1;
        }
        let mut i: usize = 0;
        while i < from.fun_table.len()
            invariant
                self.wf(),
                self.grows_from(old(self)),
                self.frame() == old(self).frame(),
                self.locals@.len() == old(self).locals@.len(),
                self.funs@.len() == old(self).funs@.len(),
                from.within(old(self).cells@.len(), old(self).funs@.len()),
                i <= from.fun_table@.len(),
                forall|j: int| 0 <= j < i ==> (#[trigger] self.locals@.last().fun_of(from.fun_table@[j].0@)) == Some(from.fun_table@[j].1),
                forall|j: int| 0 <= j < from.var_table@.len() && from.var_table@[j].0@ != "__module__"@
                    ==> (#[trigger] self.locals@.last().var_of(from.var_table@[j].0@)) is Some,
            decreases from.fun_table@.len() - i,
        {
            let name = &from.fun_table[i].0;
            let fun = from.fun_table[i].1;
            proof { assert(from.fun_table@[i as int].1 < self.funs@.len()); }
            let top = self.locals.len() - 1;
            if self.locals[top].has_fun(name) {
                return Err(error(line, text3("duplicate function ", name.as_str(), " in module ").concat(mod_name.as_str())));
            }
            let ghost vt = self.locals@.last().var_table@;
            let ghost pre = self.locals@.last();
            self.bind_top_fun(name.clone(), fun);
            proof {
                assert forall|j: int| 0 <= j < from.var_table@.len() && from.var_table@[j].0@ != "__module__"@
                    implies (#[trigger] self.locals@.last().var_of(from.var_table@[j].0@)) is Some by {
                    assert(pre.var_of(from.var_table@[j].0@) is Some);
                    assert(self.locals@.last().var_table@ == vt);
                }
            }
            i = i + 1;
        }
        Ok(())
    }

    /// Binds a name in the innermost scope to an existing function.
    fn bind_top_fun(&mut self, name: String, fun: usize)
        requires
            old(self).wf(),
            fun < old(self).funs@.len(),
        ensures
            final(self).wf(),
            final(self).cells == old(self).cells,
            final(self).funs == old(self).funs,
            final(self).module == old(self).module,
            final(self).output == old(self).output,
            final(self).frame() == old(self).frame(),
            final(self).locals@.len() == old(self).locals@.len(),
            final(self).env == old(self).env,
            final(self).locals@.last().fun_of(name@) == Some(fun),
            forall|k: Seq<char>| k != name@ ==> final(self).locals@.last().fun_of(k) == old(self).locals@.last().fun_of(k),
            final(self).locals@.last().var_table@ == old(self).locals@.last().var_table@,
            final(self).locals@.last().heap@ == old(self).locals@.last().heap@,
            forall|i: int| 0 <= i < old(self).locals@.len() - 1 ==> final(self).locals@[i] == old(self).locals@[i],
            final(self).builtin == old(self).builtin,
            final(self).recur == old(self).recur,
            final(self).locals@[0].name == old(self).locals@[0].name,
    {
        let ghost old_locals = self.locals@;
        let mut top = self.locals.pop().unwrap();
        proof { assert(old_locals.last().within(self.cells@.len(), self.funs@.len())); }
        top.add_ref_fun(name, fun);
        self.locals.push(top);
        proof {
            assert(self.locals@.drop_last() =~= old_locals.drop_last());
            assert forall|i: int| 0 <= i < self.locals@.len() implies #[trigger] self.locals@[i].within(self.cells@.len(), self.funs@.len()) by {
                if i < self.locals@.len() - 1 {
                    assert(self.locals@[i] == old_locals[i]);
                }
            }
            assert forall|i: int| 0 <= i < self.locals@.len() implies #[trigger] self.locals@[i].stack_depth <= 0x1_0000_0000 by {
                if i < self.locals@.len() - 1 {
                    assert(self.locals@[i] == old_locals[i]);
                } else {
                    assert(old_locals[i].stack_depth <= 0x1_0000_0000);
                }
            }
            assert(depths(self.locals@) =~= depths(old_locals));
        }
    }
}

} // verus!
