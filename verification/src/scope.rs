//! Name tables, scopes and user functions of the runtime.
//!
//! Values live in a store of cells owned by the runtime; scopes bind names to cell indices,
//! so that two names (or a name and a sequence element) can share one cell.
use vstd::prelude::*;
use crate::comiler::{Expr, Inst};
use crate::var::{Var, VarType, i32_le};

verus! {

/// The handle a name table gives for a name: the first entry with that name.
pub open spec fn table_get(t: Seq<(String, usize)>, name: Seq<char>) -> Option<usize>
    decreases t.len(),
{
    if t.len() == 0 {
        None
    } else if t[0].0@ == name {
        Some(t[0].1)
    } else {
        table_get(t.skip(1), name)
    }
}

/// Every handle of a table is below `n`.
pub open spec fn table_below(t: Seq<(String, usize)>, n: nat) -> bool {
    forall|i: int| 0 <= i < t.len() ==> (#[trigger] t[i]).1 < n
}

proof fn lemma_table_get_first(t: Seq<(String, usize)>, name: Seq<char>, i: int)
    requires
        0 <= i < t.len(),
        t[i].0@ == name,
        forall|j: int| 0 <= j < i ==> t[j].0@ != name,
    ensures
        table_get(t, name) == Some(t[i].1),
    decreases i,
{
    if i > 0 {
        assert forall|j: int| 0 <= j < i - 1 implies t.skip(1)[j].0@ != name by {
            assert(t.skip(1)[j] == t[j + 1]);
        }
        lemma_table_get_first(t.skip(1), name, i - 1);
    }
}

proof fn lemma_table_get_none(t: Seq<(String, usize)>, name: Seq<char>)
    requires
        forall|j: int| 0 <= j < t.len() ==> t[j].0@ != name,
    ensures
        table_get(t, name) is None,
    decreases t.len(),
{
    if t.len() > 0 {
        assert forall|j: int| 0 <= j < t.skip(1).len() implies t.skip(1)[j].0@ != name by {
            assert(t.skip(1)[j] == t[j + 1]);
        }
        lemma_table_get_none(t.skip(1), name);
    }
}

/// Two tables with the same names at the same places and the same handle at the first place
/// of a name give that name the same handle.
proof fn lemma_table_same_keys(t: Seq<(String, usize)>, u: Seq<(String, usize)>, name: Seq<char>)
    requires
        t.len() == u.len(),
        forall|j: int| 0 <= j < t.len() ==> t[j].0@ == u[j].0@,
        forall|j: int| 0 <= j < t.len() && t[j].0@ == name ==> t[j].1 == u[j].1,
    ensures
        table_get(t, name) == table_get(u, name),
{
    if exists|i: int| 0 <= i < t.len() && t[i].0@ == name {
        let i = choose|i: int| 0 <= i < t.len() && t[i].0@ == name;
        let f = first_index(t, name, i);
        lemma_table_get_first(t, name, f);
        lemma_table_get_first(u, name, f);
    } else {
        lemma_table_get_none(t, name);
        lemma_table_get_none(u, name);
    }
}

/// The first place of a name at or before `i`.
proof fn first_index(t: Seq<(String, usize)>, name: Seq<char>, i: int) -> (f: int)
    requires
        0 <= i < t.len(),
        t[i].0@ == name,
    ensures
        0 <= f <= i,
        t[f].0@ == name,
        forall|j: int| 0 <= j < f ==> t[j].0@ != name,
    decreases i,
{
    if exists|j: int| 0 <= j < i && t[j].0@ == name {
        let j = choose|j: int| 0 <= j < i && t[j].0@ == name;
        first_index(t, name, j)
    } else {
        i
    }
}

pub proof fn lemma_table_get_below(t: Seq<(String, usize)>, name: Seq<char>, n: nat)
    requires
        table_below(t, n),
    ensures
        table_get(t, name) matches Some(h) ==> h < n,
    decreases t.len(),
{
    if t.len() > 0 && t[0].0@ != name {
        assert(table_below(t.skip(1), n)) by {
            assert forall|i: int| 0 <= i < t.skip(1).len() implies (#[trigger] t.skip(1)[i]).1 < n by {
                assert(t.skip(1)[i] == t[i + 1]);
            }
        }
        lemma_table_get_below(t.skip(1), name, n);
    }
}

/// The handle bound to a name.
pub fn table_lookup(t: &Vec<(String, usize)>, name: &String) -> (r: Option<usize>)
    ensures
        r == table_get(t@, name@),
{
    let mut i: usize = 0;
    while i < t.len()
        invariant
            i <= t@.len(),
            forall|j: int| 0 <= j < i ==> t@[j].0@ != name@,
        decreases t@.len() - i,
    {
        if t[i].0 == *name {
            proof { lemma_table_get_first(t@, name@, i as int); }
            return Some(t[i].1);
        }
        i = i + 1;
    }
    proof { lemma_table_get_none(t@, name@); }
    None
}

/// Binds a name: the first entry with that name gets the handle, or a new entry is appended.
pub fn table_insert(t: &mut Vec<(String, usize)>, name: String, h: usize)
    ensures
        table_get(final(t)@, name@) == Some(h),
        forall|k: Seq<char>| k != name@ ==> table_get(final(t)@, k) == table_get(old(t)@, k),
        forall|n: nat| table_below(old(t)@, n) && h < n ==> table_below(final(t)@, n),
{
    let ghost t0 = t@;
    let mut i: usize = 0;
    while i < t.len()
        invariant
            i <= t@.len(),
            t@ == t0,
            t0 == old(t)@,
            forall|j: int| 0 <= j < i ==> t@[j].0@ != name@,
        decreases t@.len() - i,
    {
        if t[i].0 == name {
            let key = t[i].0.clone();
            t.set(i, (key, h));
            proof {
                lemma_table_get_first(t@, name@, i as int);
                assert forall|k: Seq<char>| k != name@ implies table_get(t@, k) == table_get(t0, k) by {
                    lemma_table_same_keys(t0, t@, k);
                }
                assert forall|n: nat| table_below(t0, n) && h < n implies table_below(t@, n) by {
                    assert forall|j: int| 0 <= j < t@.len() implies (#[trigger] t@[j]).1 < n by {
                        assert(t0[j].1 < n);
                    }
                }
            }
            return;
        }
        i = i + 1;
    }
    t.push((name, h));
    proof {
        lemma_table_get_first(t@, name@, t0.len() as int);
        assert forall|k: Seq<char>| k != name@ implies table_get(t@, k) == table_get(t0, k) by {
            if exists|i: int| 0 <= i < t0.len() && t0[i].0@ == k {
                let i = choose|i: int| 0 <= i < t0.len() && t0[i].0@ == k;
                let f = first_index(t0, k, i);
                lemma_table_get_first(t0, k, f);
                lemma_table_get_first(t@, k, f);
            } else {
                lemma_table_get_none(t0, k);
                lemma_table_get_none(t@, k);
            }
        }
        assert forall|n: nat| table_below(t0, n) && h < n implies table_below(t@, n) by {
            assert forall|j: int| 0 <= j < t@.len() implies (#[trigger] t@[j]).1 < n by {
                if j < t0.len() {
                    assert(t0[j].1 < n);
                }
            }
        }
    }
}

/// Two expressions alike in every part: equal literals and names, alike call arguments one
/// by one, alike nested instructions.
pub open spec fn same_expr(a: Expr, b: Expr) -> bool
    decreases a,
{
    match a {
        Expr::Empty => b == Expr::Empty,
        Expr::Number(x) => b == Expr::Number(x),
        Expr::Var(x) => b == Expr::Var(x),
        Expr::FunCall(n, xs) => match b {
            Expr::FunCall(m, ys) => {
                &&& n == m
                &&& xs@.len() == ys@.len()
                &&& forall|k: int| 0 <= k < xs@.len() ==> #[trigger] same_expr(xs@[k], ys@[k])
            },
            _ => false,
        },
        Expr::Inst(x) => match b {
            Expr::Inst(y) => same_inst(*x, *y),
            _ => false,
        },
    }
}

/// Two instructions of the same kind with alike operands.
pub open spec fn same_inst(a: Inst, b: Inst) -> bool
    decreases a,
{
    match a {
        Inst::Empty => b == Inst::Empty,
        Inst::Expr(x) => match b {
            Inst::Expr(y) => same_expr(x, y),
            _ => false,
        },
        Inst::Neg(x) => match b {
            Inst::Neg(y) => same_expr(x, y),
            _ => false,
        },
        Inst::Assign(x1, x2) => match b {
            Inst::Assign(y1, y2) => same_expr(x1, y1) && same_expr(x2, y2),
            _ => false,
        },
        Inst::Add(x1, x2) => match b {
            Inst::Add(y1, y2) => same_expr(x1, y1) && same_expr(x2, y2),
            _ => false,
        },
        Inst::Sub(x1, x2) => match b {
            Inst::Sub(y1, y2) => same_expr(x1, y1) && same_expr(x2, y2),
            _ => false,
        },
        Inst::Div(x1, x2) => match b {
            Inst::Div(y1, y2) => same_expr(x1, y1) && same_expr(x2, y2),
            _ => false,
        },
        Inst::Mul(x1, x2) => match b {
            Inst::Mul(y1, y2) => same_expr(x1, y1) && same_expr(x2, y2),
            _ => false,
        },
        Inst::Pow(x1, x2) => match b {
            Inst::Pow(y1, y2) => same_expr(x1, y1) && same_expr(x2, y2),
            _ => false,
        },
        Inst::Mod(x1, x2) => match b {
            Inst::Mod(y1, y2) => same_expr(x1, y1) && same_expr(x2, y2),
            _ => false,
        },
        Inst::BultinFnCall(x) => b == Inst::BultinFnCall(x),
    }
}

/// A copy of an expression.
pub fn copy_expr(e: &Expr) -> (r: Expr)
    ensures
        same_expr(*e, r),
    decreases e,
{
    match e {
        Expr::Empty => Expr::Empty,
        Expr::Number(s) => Expr::Number(s.clone()),
        Expr::Var(s) => Expr::Var(s.clone()),
        Expr::FunCall(name, args) => {
            let out = copy_exprs(args);
            assert forall|k: int| 0 <= k < args@.len() implies same_expr(args@[k], out@[k]) by {}
            Expr::FunCall(name.clone(), out)
        },
        Expr::Inst(b) => Expr::Inst(Box::new(copy_inst(b))),
    }
}

/// Copies of a list of expressions.
pub fn copy_exprs(v: &Vec<Expr>) -> (r: Vec<Expr>)
    ensures
        r@.len() == v@.len(),
        forall|k: int| 0 <= k < v@.len() ==> #[trigger] same_expr(v@[k], r@[k]),
    decreases v,
{
    let mut out: Vec<Expr> = Vec::new();
    let mut i: usize = 0;
    while i < v.len()
        invariant
            i <= v@.len(),
            out@.len() == i,
            forall|k: int| 0 <= k < i ==> #[trigger] same_expr(v@[k], out@[k]),
        decreases v@.len() - i,
    {
        proof { vstd::std_specs::vec::axiom_vec_index_decreases(*v, i as int); }
        out.push(copy_expr(&v[i]));
        i = i + 1;
    }
    out
}

/// A copy of an instruction.
pub fn copy_inst(i: &Inst) -> (r: Inst)
    ensures
        same_inst(*i, r),
    decreases i,
{
    match i {
        Inst::Empty => Inst::Empty,
        Inst::Expr(e) => Inst::Expr(copy_expr(e)),
        Inst::Neg(e) => Inst::Neg(copy_expr(e)),
        Inst::Assign(a, b) => Inst::Assign(copy_expr(a), copy_expr(b)),
        Inst::Add(a, b) => Inst::Add(copy_expr(a), copy_expr(b)),
        Inst::Sub(a, b) => Inst::Sub(copy_expr(a), copy_expr(b)),
        Inst::Div(a, b) => Inst::Div(copy_expr(a), copy_expr(b)),
        Inst::Mul(a, b) => Inst::Mul(copy_expr(a), copy_expr(b)),
        Inst::Pow(a, b) => Inst::Pow(copy_expr(a), copy_expr(b)),
        Inst::Mod(a, b) => Inst::Mod(copy_expr(a), copy_expr(b)),
        Inst::BultinFnCall(s) => Inst::BultinFnCall(s.clone()),
    }
}

/// Copies of a list of instructions.
pub fn copy_insts(v: &Vec<Inst>) -> (r: Vec<Inst>)
    ensures
        r@.len() == v@.len(),
        forall|k: int| 0 <= k < v@.len() ==> #[trigger] same_inst(v@[k], r@[k]),
{
    let mut out: Vec<Inst> = Vec::new();
    let mut i: usize = 0;
    while i < v.len()
        invariant
            i <= v@.len(),
            out@.len() == i,
            forall|k: int| 0 <= k < i ==> #[trigger] same_inst(v@[k], out@[k]),
        decreases v@.len() - i,
    {
        out.push(copy_inst(&v[i]));
        i = i + 1;
    }
    out
}

/// A function of the language: its parameter names and the instructions of its body.
#[derive(Debug)]
pub struct Fun {
    pub para_name: Vec<String>,
    pub data: Vec<Inst>,
}

impl Fun {
    /// A function with these parameters and no instructions yet.
    pub fn new(para_name: Vec<String>) -> (r: Self)
        ensures
            r.para_name@ == para_name@,
            r.data@ == Seq::<Inst>::empty(),
    {
        Fun { para_name, data: Vec::new() }
    }

    /// Appends an instruction to the body.
    pub fn push_inst(&mut self, inst: Inst)
        ensures
            final(self).para_name@ == old(self).para_name@,
            final(self).data@ == old(self).data@.push(inst),
    {
        self.data.push(inst);
    }
}

/// A scope: its id and name, how deep in calls it stands, the cells of the sequences it holds,
/// and its variables and functions (cell and function indices of the runtime).
#[derive(Debug)]
pub struct Scope {
    pub id: usize,
    pub name: String,
    pub stack_depth: u64,
    pub heap: Vec<usize>,
    pub var_table: Vec<(String, usize)>,
    pub fun_table: Vec<(String, usize)>,
}

impl Scope {
    /// The cell a name is bound to.
    pub open spec fn var_of(&self, name: Seq<char>) -> Option<usize> {
        table_get(self.var_table@, name)
    }

    /// The function a name is bound to.
    pub open spec fn fun_of(&self, name: Seq<char>) -> Option<usize> {
        table_get(self.fun_table@, name)
    }

    /// Every cell and function index of the scope is below `cells` and `funs`.
    pub open spec fn within(&self, cells: nat, funs: nat) -> bool {
        &&& table_below(self.var_table@, cells)
        &&& table_below(self.fun_table@, funs)
        &&& forall|i: int| 0 <= i < self.heap@.len() ==> #[trigger] self.heap@[i] < cells
    }

    /// An empty scope at depth zero.
    pub fn new(name: String, id: usize) -> (r: Self)
        ensures
            r.id == id,
            r.name@ == name@,
            r.stack_depth == 0,
            r.heap@.len() == 0,
            r.var_table@.len() == 0,
            r.fun_table@.len() == 0,
            forall|c: nat, f: nat| r.within(c, f),
    {
        Scope { id, name, stack_depth: 0, heap: Vec::new(), var_table: Vec::new(), fun_table: Vec::new() }
    }

    /// The name.
    pub fn get_name(&self) -> (r: &String)
        ensures
            r@ == self.name@,
    {
        &self.name
    }

    /// The id.
    pub fn get_id(&self) -> (r: usize)
        ensures
            r == self.id,
    {
        self.id
    }

    /// The cell bound to a name.
    pub fn get_var(&self, name: &String) -> (r: Option<usize>)
        ensures
            r == self.var_of(name@),
    {
        table_lookup(&self.var_table, name)
    }

    /// The function bound to a name.
    pub fn get_fun(&self, name: &String) -> (r: Option<usize>)
        ensures
            r == self.fun_of(name@),
    {
        table_lookup(&self.fun_table, name)
    }

    /// Whether a name is bound to a cell.
    pub fn has_var(&self, name: &String) -> (r: bool)
        ensures
            r == self.var_of(name@) is Some,
    {
        table_lookup(&self.var_table, name).is_some()
    }

    /// Whether a name is bound to a function.
    pub fn has_fun(&self, name: &String) -> (r: bool)
        ensures
            r == self.fun_of(name@) is Some,
    {
        table_lookup(&self.fun_table, name).is_some()
    }

    /// Binds a name to a new cell holding `value`.
    pub fn add_var(&mut self, cells: &mut Vec<Var>, name: String, value: Var)
        ensures
            final(cells)@ == old(cells)@.push(value),
            final(self).var_of(name@) == Some(old(cells)@.len() as usize),
            forall|k: Seq<char>| k != name@ ==> final(self).var_of(k) == old(self).var_of(k),
            final(self).fun_table@ == old(self).fun_table@,
            final(self).heap@ == old(self).heap@,
            final(self).id == old(self).id,
            final(self).name == old(self).name,
            final(self).stack_depth == old(self).stack_depth,
            forall|f: nat| old(self).within(old(cells)@.len(), f) ==> final(self).within(final(cells)@.len(), f),
    {
        let h = cells.len();
        cells.push(value);
        proof {
            assert forall|f: nat| old(self).within(old(cells)@.len(), f) implies table_below(self.var_table@, (h + 1) as nat) by {
                assert forall|i: int| 0 <= i < self.var_table@.len() implies (#[trigger] self.var_table@[i]).1 < h + 1 by {
                    assert(old(self).var_table@[i].1 < h);
                }
            }
        }
        table_insert(&mut self.var_table, name, h);
        proof {
            assert forall|f: nat| old(self).within(old(cells)@.len(), f) implies self.within(cells@.len(), f) by {
                assert forall|i: int| 0 <= i < self.heap@.len() implies #[trigger] self.heap@[i] < cells@.len() by {
                    assert(old(self).heap@[i] < old(cells)@.len());
                }
            }
        }
    }

    /// Binds a name to a cell that already exists.
    pub fn add_ref_var(&mut self, name: String, cell: usize)
        ensures
            final(self).var_of(name@) == Some(cell),
            forall|k: Seq<char>| k != name@ ==> final(self).var_of(k) == old(self).var_of(k),
            final(self).fun_table@ == old(self).fun_table@,
            final(self).heap@ == old(self).heap@,
            final(self).id == old(self).id,
            final(self).name == old(self).name,
            final(self).stack_depth == old(self).stack_depth,
            forall|c: nat, f: nat| old(self).within(c, f) && cell < c ==> final(self).within(c, f),
    {
        table_insert(&mut self.var_table, name, cell);
    }

    /// Binds a name to a function that already exists.
    pub fn add_ref_fun(&mut self, name: String, fun: usize)
        ensures
            final(self).fun_of(name@) == Some(fun),
            forall|k: Seq<char>| k != name@ ==> final(self).fun_of(k) == old(self).fun_of(k),
            final(self).var_table@ == old(self).var_table@,
            final(self).heap@ == old(self).heap@,
            final(self).id == old(self).id,
            final(self).name == old(self).name,
            final(self).stack_depth == old(self).stack_depth,
            forall|c: nat, f: nat| old(self).within(c, f) && fun < f ==> final(self).within(c, f),
    {
        table_insert(&mut self.fun_table, name, fun);
    }

    /// Binds a name to a new function.
    pub fn set_fun(&mut self, funs: &mut Vec<Fun>, name: String, fun: Fun)
        ensures
            final(funs)@ == old(funs)@.push(fun),
            final(self).fun_of(name@) == Some(old(funs)@.len() as usize),
            forall|k: Seq<char>| k != name@ ==> final(self).fun_of(k) == old(self).fun_of(k),
            final(self).var_table@ == old(self).var_table@,
            final(self).heap@ == old(self).heap@,
            final(self).id == old(self).id,
            final(self).name == old(self).name,
            final(self).stack_depth == old(self).stack_depth,
            forall|c: nat| old(self).within(c, old(funs)@.len()) ==> final(self).within(c, final(funs)@.len()),
    {
        let h = funs.len();
        funs.push(fun);
        table_insert(&mut self.fun_table, name, h);
        proof {
            assert forall|c: nat| old(self).within(c, old(funs)@.len()) implies final(self).within(c, final(funs)@.len()) by {
                assert forall|i: int| 0 <= i < old(self).fun_table@.len() implies (#[trigger] old(self).fun_table@[i]).1 < final(funs)@.len() by {}
            }
        }
    }

    /// Binds a name to a new function with these parameters and no instructions.
    pub fn add_fun(&mut self, funs: &mut Vec<Fun>, name: String, para_name: Vec<String>)
        ensures
            final(funs)@.len() == old(funs)@.len() + 1,
            forall|i: int| 0 <= i < old(funs)@.len() ==> final(funs)@[i] == old(funs)@[i],
            final(funs)@.last().para_name@ == para_name@,
            final(funs)@.last().data@.len() == 0,
            final(self).fun_of(name@) == Some(old(funs)@.len() as usize),
            forall|k: Seq<char>| k != name@ ==> final(self).fun_of(k) == old(self).fun_of(k),
            final(self).var_table@ == old(self).var_table@,
            final(self).heap@ == old(self).heap@,
            forall|c: nat| old(self).within(c, old(funs)@.len()) ==> final(self).within(c, final(funs)@.len()),
    {
        self.set_fun(funs, name, Fun::new(para_name));
    }

    /// The cell of a sequence element.
    pub fn get_heap(&self, index: usize) -> (r: usize)
        requires
            index < self.heap@.len(),
        ensures
            r == self.heap@[index as int],
    {
        self.heap[index]
    }

    /// Appends `len` new cells holding the `i32` zero to the heap; the range `[start, end)` of
    /// heap positions they take.
    pub fn add_arr(&mut self, cells: &mut Vec<Var>, len: usize) -> (r: (usize, usize))
        requires
            old(self).heap@.len() + len <= usize::MAX,
            old(cells)@.len() + len <= usize::MAX,
        ensures
            r.0 == old(self).heap@.len(),
            r.1 == r.0 + len,
            final(self).heap@.len() == r.1,
            forall|i: int| 0 <= i < r.0 ==> final(self).heap@[i] == old(self).heap@[i],
            forall|i: int| r.0 <= i < r.1 ==> #[trigger] final(self).heap@[i] == old(cells)@.len() + (i - r.0),
            final(cells)@.len() == old(cells)@.len() + len,
            forall|i: int| 0 <= i < old(cells)@.len() ==> final(cells)@[i] == old(cells)@[i],
            forall|i: int| old(cells)@.len() <= i < final(cells)@.len() ==> final(cells)@[i]@ == (VarType::I32, i32_le(0)),
            final(self).var_table@ == old(self).var_table@,
            final(self).fun_table@ == old(self).fun_table@,
            final(self).id == old(self).id,
            final(self).name == old(self).name,
            final(self).stack_depth == old(self).stack_depth,
            forall|f: nat| old(self).within(old(cells)@.len(), f) ==> final(self).within(final(cells)@.len(), f),
    {
        let start = self.heap.len();
        let mut k: usize = 0;
        while k < len
            invariant
                k <= len,
                self.heap@.len() == start + k,
                cells@.len() == old(cells)@.len() + k,
                start == old(self).heap@.len(),
                old(self).heap@.len() + len <= usize::MAX,
                old(cells)@.len() + len <= usize::MAX,
                forall|i: int| 0 <= i < start ==> self.heap@[i] == old(self).heap@[i],
                forall|i: int| start <= i < self.heap@.len() ==> self.heap@[i] < cells@.len(),
                forall|i: int| start <= i < start + k ==> #[trigger] self.heap@[i] == old(cells)@.len() + (i - start),
                forall|i: int| 0 <= i < old(cells)@.len() ==> cells@[i] == old(cells)@[i],
                forall|i: int| old(cells)@.len() <= i < cells@.len() ==> cells@[i]@ == (VarType::I32, i32_le(0)),
                self.var_table@ == old(self).var_table@,
                self.fun_table@ == old(self).fun_table@,
                self.id == old(self).id,
                self.name == old(self).name,
                self.stack_depth == old(self).stack_depth,
            decreases len - k,
        {
            let h = cells.len();
            cells.push(Var::from_i32(0));
            self.heap.push(h);
            k = k + 1;
        }
        proof {
            assert forall|f: nat| old(self).within(old(cells)@.len(), f) implies self.within(cells@.len(), f) by {
                assert forall|i: int| 0 <= i < self.var_table@.len() implies (#[trigger] self.var_table@[i]).1 < cells@.len() by {
                    assert(old(self).var_table@[i].1 < old(cells)@.len());
                }
                assert forall|i: int| 0 <= i < self.heap@.len() implies #[trigger] self.heap@[i] < cells@.len() by {
                    if i < start {
                        assert(old(self).heap@[i] < old(cells)@.len());
                    }
                }
            }
        }
        (start, start + len)
    }
}

} // verus!
