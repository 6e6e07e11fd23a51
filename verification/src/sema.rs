//! Semantic analysis: name resolution, type checking, mutability, arity,
//! missing-return analysis, and the `main` contract. Produces a `Typed`
//! side table the lowering pass consumes.

use vstd::prelude::*;

use crate::diag::{Diagnostic, DiagV, Span, diag_v};
use crate::parser::{
    lemma_exprs_v, lemma_stmts_v, expr_ids_lt, exprs_ids_lt, stmt_ids_lt, stmts_ids_lt, block_ids_lt, program_ids_ok, exprs_v, stmts_v, expr_v, stmt_v, block_v, BinOp, Block, BlockV, Expr, ExprKind, ExprKindV, ExprV, FnDecl, FnDeclV, ParamV, Program, ProgramV, Stmt,
    StmtKind, StmtKindV, StmtV, Ty, UnOp, binop_text, ty_text,
};
use crate::text::{str_eq, push_nat};

verus! {

/// Types of expressions and the function table of a checked program.
pub struct Typed {
    /// Type of every expression, indexed by `Expr::id`.
    pub expr_types: Vec<Ty>,
    /// Function name and its index into `Program::funcs`, in declaration order.
    pub fn_index: Vec<(String, usize)>,
}

/// A variable in scope: its name, type, mutability and declaration span.
pub struct VarInfo {
    pub name: Seq<char>,
    pub ty: Ty,
    pub mutable: bool,
    pub span: Span,
}

/// Scopes, outermost first.
pub type Env = Seq<Seq<VarInfo>>;

/// What the checker knows while checking: the program, the function
/// table, and the return type of the current function.
pub struct Ctx {
    pub prog: ProgramV,
    pub ret: Ty,
}

// ---------------------------------------------------------------- scopes --

/// Index of the variable named `name` in a scope, searching from the end.
pub open spec fn scope_find(sc: Seq<VarInfo>, name: Seq<char>) -> Option<int>
    decreases sc.len(),
{
    if sc.len() == 0 {
        None
    } else if sc.last().name == name {
        Some(sc.len() - 1)
    } else {
        scope_find(sc.drop_last(), name)
    }
}

/// The innermost variable named `name`: its type and mutability.
pub open spec fn env_lookup(env: Env, name: Seq<char>) -> Option<(Ty, bool)>
    decreases env.len(),
{
    if env.len() == 0 {
        None
    } else {
        match scope_find(env.last(), name) {
            Some(k) => Some((env.last()[k].ty, env.last()[k].mutable)),
            None => env_lookup(env.drop_last(), name),
        }
    }
}

/// Declares a variable in the innermost scope, or reports a duplicate.
pub open spec fn env_declare(env: Env, v: VarInfo) -> Result<Env, DiagV> {
    match scope_find(env.last(), v.name) {
        Some(k) => Err(
            diag_v("E016"@, v.span, "`"@ + v.name + "` is already declared in this scope"@).with_note(
                "previous declaration at byte "@ + crate::text::nat_text(env.last()[k].span.start as nat),
            ),
        ),
        None => Ok(env.update(env.len() - 1, env.last().push(v))),
    }
}

// --------------------------------------------------------------- functions --

/// Index of the first function named `name`.
pub open spec fn find_fn(funcs: Seq<FnDeclV>, name: Seq<char>) -> Option<int>
    decreases funcs.len(),
{
    if funcs.len() == 0 {
        None
    } else {
        match find_fn(funcs.drop_last(), name) {
            Some(k) => Some(k),
            None => if funcs.last().name == name {
                Some(funcs.len() - 1)
            } else {
                None
            },
        }
    }
}

pub open spec fn e011(span: Span, m: Seq<char>) -> DiagV {
    diag_v("E011"@, span, m)
}

pub open spec fn quoted(s: Seq<char>) -> Seq<char> {
    "`"@ + s + "`"@
}

pub open spec fn has_type(t: Ty) -> Seq<char> {
    "this has type "@ + quoted(ty_text(t))
}

/// A checked expression: its type and the updated type table.
pub type CR = Result<(Ty, Seq<Ty>), DiagV>;

pub open spec fn is_arith_or_cmp(op: BinOp) -> bool {
    match op {
        BinOp::Add | BinOp::Sub | BinOp::Mul | BinOp::Div | BinOp::Rem | BinOp::Lt | BinOp::Le
        | BinOp::Gt | BinOp::Ge => true,
        _ => false,
    }
}

pub open spec fn is_cmp(op: BinOp) -> bool {
    match op {
        BinOp::Lt | BinOp::Le | BinOp::Gt | BinOp::Ge => true,
        _ => false,
    }
}

/// The type of an operator applied to operands of types `at` and `bt`, or
/// the diagnostic.
pub open spec fn binary_type(op: BinOp, e: ExprV, a: ExprV, b: ExprV, at: Ty, bt: Ty) -> Result<Ty, DiagV> {
    if is_arith_or_cmp(op) {
        if at != Ty::I64 {
            Err(e011(a.span, "operator "@ + quoted(binop_text(op)) + " expects `i64` operands, found "@ + quoted(ty_text(at))).with_label(has_type(at)))
        } else if bt != Ty::I64 {
            Err(e011(b.span, "operator "@ + quoted(binop_text(op)) + " expects `i64` operands, found "@ + quoted(ty_text(bt))).with_label(has_type(bt)))
        } else if is_cmp(op) {
            Ok(Ty::Bool)
        } else {
            Ok(Ty::I64)
        }
    } else if op == BinOp::Eq || op == BinOp::Ne {
        if at != bt || at == Ty::Str || at == Ty::Unit {
            Err(e011(e.span, "cannot compare "@ + quoted(ty_text(at)) + " with "@ + quoted(ty_text(bt))))
        } else {
            Ok(Ty::Bool)
        }
    } else {
        if at != Ty::Bool {
            Err(e011(a.span, "operator "@ + quoted(binop_text(op)) + " expects `bool` operands, found "@ + quoted(ty_text(at))).with_label(has_type(at)))
        } else if bt != Ty::Bool {
            Err(e011(b.span, "operator "@ + quoted(binop_text(op)) + " expects `bool` operands, found "@ + quoted(ty_text(bt))).with_label(has_type(bt)))
        } else {
            Ok(Ty::Bool)
        }
    }
}

/// "`f` takes 1 argument but 2 were supplied".
pub open spec fn arity_message(name: Seq<char>, want: nat, got: nat) -> Seq<char> {
    quoted(name) + " takes "@ + crate::text::nat_text(want) + " argument"@ + (if want == 1 { ""@ } else { "s"@ })
        + " but "@ + crate::text::nat_text(got) + (if got == 1 { " was"@ } else { " were"@ }) + " supplied"@
}

pub open spec fn c_expr(c: Ctx, env: Env, types: Seq<Ty>, e: ExprV) -> CR
    decreases e,
{
    let r: CR = match e.kind {
        ExprKindV::Int(_) => Ok((Ty::I64, types)),
        ExprKindV::Bool(_) => Ok((Ty::Bool, types)),
        ExprKindV::Str(_) => Ok((Ty::Str, types)),
        ExprKindV::Var(name) => match env_lookup(env, name) {
            Some((t, _)) => Ok((t, types)),
            None => {
                let d = diag_v("E010"@, e.span, "cannot find variable "@ + quoted(name) + " in this scope"@);
                if find_fn(c.prog.funcs, name) is Some {
                    Err(d.with_note(quoted(name) + " is a function; call it with "@ + quoted(name + "(...)"@)))
                } else {
                    Err(d)
                }
            },
        },
        ExprKindV::Unary(op, x) => match c_expr(c, env, types, *x) {
            Err(d) => Err(d),
            Ok((xt, t1)) => {
                let want = if op == UnOp::Neg { Ty::I64 } else { Ty::Bool };
                if xt != want {
                    Err(e011(x.span, "cannot apply "@ + quoted(if op == UnOp::Neg { "-"@ } else { "!"@ }) + " to "@ + quoted(ty_text(xt))).with_label(
                        "expected "@ + quoted(ty_text(want)),
                    ))
                } else {
                    Ok((want, t1))
                }
            },
        },
        ExprKindV::Binary(op, a, b) => match c_expr(c, env, types, *a) {
            Err(d) => Err(d),
            Ok((at, t1)) => match c_expr(c, env, t1, *b) {
                Err(d) => Err(d),
                Ok((bt, t2)) => match binary_type(op, e, *a, *b, at, bt) {
                    Err(d) => Err(d),
                    Ok(t) => Ok((t, t2)),
                },
            },
        },
        ExprKindV::Call(name, args) => match find_fn(c.prog.funcs, name) {
            None => {
                let d = diag_v("E014"@, e.span, "cannot find function "@ + quoted(name));
                if name == "print"@ {
                    Err(d.with_note("`print` is a statement: `print(x);`"@))
                } else {
                    Err(d)
                }
            },
            Some(idx) => {
                let f = c.prog.funcs[idx];
                if f.params.len() != args.len() {
                    Err(diag_v("E013"@, e.span, arity_message(name, f.params.len(), args.len())))
                } else {
                    match c_args(c, env, types, args, f.params) {
                        Err(d) => Err(d),
                        Ok(t1) => Ok((f.ret, t1)),
                    }
                }
            },
        },
    };
    match r {
        Err(d) => Err(d),
        Ok((t, t1)) => Ok((t, t1.update(e.id, t))),
    }
}

/// Checks call arguments against parameter types, in order.
pub open spec fn c_args(c: Ctx, env: Env, types: Seq<Ty>, args: Seq<ExprV>, params: Seq<ParamV>) -> Result<Seq<Ty>, DiagV>
    decreases args,
{
    if args.len() == 0 || params.len() == 0 {
        Ok(types)
    } else {
        match c_expr(c, env, types, args[0]) {
            Err(d) => Err(d),
            Ok((at, t1)) => if at != params[0].ty {
                Err(e011(args[0].span, "type mismatch: parameter is "@ + quoted(ty_text(params[0].ty)) + ", argument is "@ + quoted(ty_text(at))).with_label(has_type(at)))
            } else {
                c_args(c, env, t1, args.drop_first(), params.drop_first())
            },
        }
    }
}

/// A condition must be `bool`.
pub open spec fn c_cond(c: Ctx, env: Env, types: Seq<Ty>, e: ExprV) -> Result<Seq<Ty>, DiagV> {
    match c_expr(c, env, types, e) {
        Err(d) => Err(d),
        Ok((t, t1)) => if t != Ty::Bool {
            Err(diag_v("E018"@, e.span, "condition must be `bool`, found "@ + quoted(ty_text(t))).with_label(has_type(t)))
        } else {
            Ok(t1)
        },
    }
}

/// A checked statement: whether it definitely returns, the scopes after
/// it, and the type table.
pub type SR = Result<(bool, Env, Seq<Ty>), DiagV>;

pub open spec fn c_stmt(c: Ctx, env: Env, types: Seq<Ty>, s: StmtV) -> SR
    decreases s, 1int,
{
    match s.kind {
        StmtKindV::Let { name, name_span, mutable, ty, init } => match c_expr(c, env, types, init) {
            Err(d) => Err(d),
            Ok((it, t1)) => if it == Ty::Unit {
                Err(e011(init.span, "cannot bind a value of type `()`"@).with_label("this call returns nothing"@))
            } else if it == Ty::Str {
                Err(e011(init.span, "string literals can only be used as arguments to `print`"@))
            } else if ty is Some && ty->0 != it {
                Err(e011(init.span, "type mismatch: "@ + quoted(name) + " is declared "@ + quoted(ty_text(ty->0)) + " but initialised with "@ + quoted(ty_text(it))).with_label(has_type(it)))
            } else {
                match env_declare(env, VarInfo { name, ty: it, mutable, span: name_span }) {
                    Err(d) => Err(d),
                    Ok(env1) => Ok((false, env1, t1)),
                }
            },
        },
        StmtKindV::Assign { name, name_span, value } => match c_expr(c, env, types, value) {
            Err(d) => Err(d),
            Ok((vt, t1)) => match env_lookup(env, name) {
                None => Err(diag_v("E010"@, name_span, "cannot find variable "@ + quoted(name) + " in this scope"@)),
                Some((t, mutable)) => if !mutable {
                    Err(diag_v("E012"@, name_span, "cannot assign twice to immutable variable "@ + quoted(name)).with_note(
                        "declare it with "@ + quoted("let mut "@ + name) + " to allow assignment"@,
                    ))
                } else if t != vt {
                    Err(e011(value.span, "type mismatch: "@ + quoted(name) + " is "@ + quoted(ty_text(t)) + " but the value is "@ + quoted(ty_text(vt))).with_label(has_type(vt)))
                } else {
                    Ok((false, env, t1))
                },
            },
        },
        StmtKindV::Expr(e) => match c_expr(c, env, types, e) {
            Err(d) => Err(d),
            Ok((_, t1)) => if !(e.kind is Call) {
                Err(diag_v("E020"@, e.span, "expression statement has no effect"@).with_note(
                    "only function calls may be used as statements"@,
                ))
            } else {
                Ok((false, env, t1))
            },
        },
        StmtKindV::Return(v) => match v {
            None => if c.ret == Ty::Unit {
                Ok((true, env, types))
            } else {
                Err(e011(s.span, "`return` without a value in a function returning "@ + quoted(ty_text(c.ret))))
            },
            Some(e) => if c.ret == Ty::Unit {
                Err(e011(e.span, "returning a value from a function declared without `->`"@).with_label(
                    "remove this value or add a return type"@,
                ))
            } else {
                match c_expr(c, env, types, e) {
                    Err(d) => Err(d),
                    Ok((et, t1)) => if et != c.ret {
                        Err(e011(e.span, "type mismatch: expected "@ + quoted(ty_text(c.ret)) + ", found "@ + quoted(ty_text(et))).with_label(has_type(et)))
                    } else {
                        Ok((true, env, t1))
                    },
                }
            },
        },
        StmtKindV::If { cond, then, els } => match c_cond(c, env, types, cond) {
            Err(d) => Err(d),
            Ok(t1) => match c_block(c, env, t1, then) {
                Err(d) => Err(d),
                Ok((a, t2)) => match els {
                    None => Ok((false, env, t2)),
                    Some(eb) => match c_block(c, env, t2, eb) {
                        Err(d) => Err(d),
                        Ok((b, t3)) => Ok((a && b, env, t3)),
                    },
                },
            },
        },
        StmtKindV::While { cond, body } => match c_cond(c, env, types, cond) {
            Err(d) => Err(d),
            Ok(t1) => match c_block(c, env, t1, body) {
                Err(d) => Err(d),
                Ok((_, t2)) => Ok((false, env, t2)),
            },
        },
        StmtKindV::Print(e) => match c_expr(c, env, types, e) {
            Err(d) => Err(d),
            Ok((t, t1)) => if t == Ty::Unit {
                Err(e011(e.span, "cannot print a value of type `()`"@))
            } else {
                Ok((false, env, t1))
            },
        },
    }
}

/// Checks a block in a new scope: whether it definitely returns (some
/// statement returns), and the type table. A statement after one that
/// returns is unreachable.
pub open spec fn c_block(c: Ctx, env: Env, types: Seq<Ty>, b: BlockV) -> Result<(bool, Seq<Ty>), DiagV>
    decreases b, 2int,
{
    c_stmts(c, env.push(Seq::empty()), types, b.stmts, false)
}

pub open spec fn c_stmts(c: Ctx, env: Env, types: Seq<Ty>, stmts: Seq<StmtV>, done: bool) -> Result<(bool, Seq<Ty>), DiagV>
    decreases stmts, 0int,
{
    if stmts.len() == 0 {
        Ok((done, types))
    } else if done {
        Err(diag_v("E019"@, stmts[0].span, "unreachable statement"@).with_note(
            "a `return` above it always exits the function"@,
        ))
    } else {
        match c_stmt(c, env, types, stmts[0]) {
            Err(d) => Err(d),
            Ok((r, env1, t1)) => c_stmts(c, env1, t1, stmts.drop_first(), r),
        }
    }
}


// ------------------------------------------------------------ functions --

/// A statement definitely returns: a `return`, or an `if` with an `else`
/// block whose two blocks both definitely return. A `while` never does.
pub open spec fn stmt_returns(s: StmtV) -> bool
    decreases s, 1int,
{
    match s.kind {
        StmtKindV::Return(_) => true,
        StmtKindV::If { then, els, .. } => match els {
            Some(eb) => stmts_return(then.stmts) && stmts_return(eb.stmts),
            None => false,
        },
        _ => false,
    }
}

/// Some statement of a block definitely returns.
pub open spec fn stmts_return(ss: Seq<StmtV>) -> bool
    decreases ss, 0int,
{
    if ss.len() == 0 {
        false
    } else {
        stmt_returns(ss[0]) || stmts_return(ss.drop_first())
    }
}

/// What checking a statement says of whether it returns is whether it
/// definitely returns.
pub proof fn lemma_checked_stmt_returns(c: Ctx, env: Env, types: Seq<Ty>, s: StmtV)
    ensures
        c_stmt(c, env, types, s) is Ok ==> c_stmt(c, env, types, s)->Ok_0.0 == stmt_returns(s),
    decreases s, 1int,
{
    match s.kind {
        StmtKindV::If { cond, then, els } => {
            if let Ok(t1) = c_cond(c, env, types, cond) {
                lemma_checked_stmts_return(c, env.push(Seq::empty()), t1, then.stmts, false);
                if let Ok((a, t2)) = c_block(c, env, t1, then) {
                    if let Some(eb) = els {
                        lemma_checked_stmts_return(c, env.push(Seq::empty()), t2, eb.stmts, false);
                    }
                }
            }
        },
        StmtKindV::While { cond, body } => {},
        _ => {},
    }
}

/// Checking a block succeeds only if no statement follows one that
/// definitely returns, and then says the block returns exactly when one of
/// its statements definitely returns (or a statement before it did).
pub proof fn lemma_checked_stmts_return(c: Ctx, env: Env, types: Seq<Ty>, stmts: Seq<StmtV>, done: bool)
    ensures
        c_stmts(c, env, types, stmts, done) is Ok ==> c_stmts(c, env, types, stmts, done)->Ok_0.0 == (done || stmts_return(stmts)),
        c_stmts(c, env, types, stmts, done) is Ok && done ==> stmts.len() == 0,
    decreases stmts, 0int,
{
    if stmts.len() > 0 && !done {
        lemma_checked_stmt_returns(c, env, types, stmts[0]);
        if let Ok((r, env1, t1)) = c_stmt(c, env, types, stmts[0]) {
            lemma_checked_stmts_return(c, env1, t1, stmts.drop_first(), r);
        }
    }
}

/// A function that checks and returns a value definitely returns: its body
/// has a statement that definitely returns.
pub proof fn lemma_checked_function_returns(prog: ProgramV, types: Seq<Ty>, f: FnDeclV)
    ensures
        c_func(prog, types, f) is Ok && f.ret != Ty::Unit ==> stmts_return(f.body.stmts),
{
    let c = Ctx { prog, ret: f.ret };
    if let Ok(env) = c_params(seq![Seq::empty()], f.params) {
        lemma_checked_stmts_return(c, env.push(Seq::empty()), types, f.body.stmts, false);
    }
}

/// Declares the parameters, in order, as immutable variables.
pub open spec fn c_params(env: Env, params: Seq<ParamV>) -> Result<Env, DiagV>
    decreases params.len(),
{
    if params.len() == 0 {
        Ok(env)
    } else {
        let p = params.last();
        match c_params(env, params.drop_last()) {
            Err(d) => Err(d),
            Ok(env1) => env_declare(env1, VarInfo { name: p.name, ty: p.ty, mutable: false, span: p.span }),
        }
    }
}

pub open spec fn c_func(prog: ProgramV, types: Seq<Ty>, f: FnDeclV) -> Result<Seq<Ty>, DiagV> {
    let c = Ctx { prog, ret: f.ret };
    match c_params(seq![Seq::empty()], f.params) {
        Err(d) => Err(d),
        Ok(env) => match c_block(c, env, types, f.body) {
            Err(d) => Err(d),
            Ok((done, t1)) => if f.ret != Ty::Unit && !done {
                Err(
                    diag_v(
                        "E015"@,
                        f.name_span,
                        "function "@ + quoted(f.name) + " returns "@ + quoted(ty_text(f.ret)) + " but not every path returns a value"@,
                    ).with_label("declared here"@).with_note(
                        "add a `return` at the end, or make every `if` branch return"@,
                    ),
                )
            } else {
                Ok(t1)
            },
        },
    }
}

/// Checks the functions `funcs[..n]`, in order.
pub open spec fn c_funcs(prog: ProgramV, types: Seq<Ty>, n: int) -> Result<Seq<Ty>, DiagV>
    decreases n,
{
    if n <= 0 {
        Ok(types)
    } else {
        match c_funcs(prog, types, n - 1) {
            Err(d) => Err(d),
            Ok(t1) => c_func(prog, t1, prog.funcs[n - 1]),
        }
    }
}

/// Function names: `print` is reserved and each name is declared once;
/// checks `funcs[..n]`.
pub open spec fn c_names(funcs: Seq<FnDeclV>, n: int) -> Result<(), DiagV>
    decreases n,
{
    if n <= 0 {
        Ok(())
    } else {
        match c_names(funcs, n - 1) {
            Err(d) => Err(d),
            Ok(()) => {
                let f = funcs[n - 1];
                if f.name == "print"@ {
                    Err(diag_v("E016"@, f.name_span, "`print` is a builtin and cannot be redefined"@))
                } else if find_fn(funcs.take(n - 1), f.name) is Some {
                    Err(diag_v("E016"@, f.name_span, "function "@ + quoted(f.name) + " is defined twice"@))
                } else {
                    Ok(())
                }
            },
        }
    }
}

/// The type table of a well-typed program, or its first semantic error.
pub open spec fn spec_check(prog: ProgramV) -> Result<Seq<Ty>, DiagV> {
    match c_names(prog.funcs, prog.funcs.len() as int) {
        Err(d) => Err(d),
        Ok(()) => match find_fn(prog.funcs, "main"@) {
            None => Err(
                diag_v("E017"@, Span { start: 0, end: 0 }, "no `main` function"@).with_note(
                    "every Ash program starts at `fn main() { ... }`"@,
                ),
            ),
            Some(m) => if prog.funcs[m].params.len() != 0 || prog.funcs[m].ret != Ty::Unit {
                Err(diag_v("E017"@, prog.funcs[m].name_span, "`main` must take no parameters and return nothing"@))
            } else {
                c_funcs(prog, Seq::new(prog.expr_count as nat, |_i: int| Ty::Unit), prog.funcs.len() as int)
            },
        },
    }
}

/// The function table: each function's name with its index.
pub open spec fn fn_table(funcs: Seq<FnDeclV>) -> Seq<(Seq<char>, int)> {
    Seq::new(funcs.len(), |i: int| (funcs[i].name, i))
}

pub open spec fn fn_index_view(v: Seq<(String, usize)>) -> Seq<(Seq<char>, int)> {
    v.map_values(|p: (String, usize)| (p.0@, p.1 as int))
}

// ------------------------------------------------------------ calls --

/// Every call in `e` names a function of `funcs` and passes as many
/// arguments as it has parameters.
pub open spec fn expr_calls_ok(funcs: Seq<FnDeclV>, e: ExprV) -> bool
    decreases e,
{
    match e.kind {
        ExprKindV::Unary(_, x) => expr_calls_ok(funcs, *x),
        ExprKindV::Binary(_, a, b) => expr_calls_ok(funcs, *a) && expr_calls_ok(funcs, *b),
        ExprKindV::Call(name, args) => {
            &&& find_fn(funcs, name) is Some
            &&& funcs[find_fn(funcs, name)->0].params.len() == args.len()
            &&& exprs_calls_ok(funcs, args)
        },
        _ => true,
    }
}

pub open spec fn exprs_calls_ok(funcs: Seq<FnDeclV>, s: Seq<ExprV>) -> bool
    decreases s,
{
    s.len() > 0 ==> expr_calls_ok(funcs, s[0]) && exprs_calls_ok(funcs, s.drop_first())
}

pub open spec fn stmt_calls_ok(funcs: Seq<FnDeclV>, s: StmtV) -> bool
    decreases s,
{
    match s.kind {
        StmtKindV::Let { init, .. } => expr_calls_ok(funcs, init),
        StmtKindV::Assign { value, .. } => expr_calls_ok(funcs, value),
        StmtKindV::Expr(e) => expr_calls_ok(funcs, e),
        StmtKindV::Return(v) => v matches Some(e) ==> expr_calls_ok(funcs, e),
        StmtKindV::If { cond, then, els } => {
            &&& expr_calls_ok(funcs, cond)
            &&& block_calls_ok(funcs, then)
            &&& els matches Some(b) ==> block_calls_ok(funcs, b)
        },
        StmtKindV::While { cond, body } => expr_calls_ok(funcs, cond) && block_calls_ok(funcs, body),
        StmtKindV::Print(e) => expr_calls_ok(funcs, e),
    }
}

pub open spec fn stmts_calls_ok(funcs: Seq<FnDeclV>, s: Seq<StmtV>) -> bool
    decreases s,
{
    s.len() > 0 ==> stmt_calls_ok(funcs, s[0]) && stmts_calls_ok(funcs, s.drop_first())
}

pub open spec fn block_calls_ok(funcs: Seq<FnDeclV>, b: BlockV) -> bool
    decreases b,
{
    stmts_calls_ok(funcs, b.stmts)
}

/// Every call of the program resolves, with the right number of arguments.
pub open spec fn program_calls_ok(p: ProgramV) -> bool {
    forall|i: int| 0 <= i < p.funcs.len() ==> block_calls_ok(p.funcs, #[trigger] p.funcs[i].body)
}

proof fn lemma_c_expr_calls(c: Ctx, env: Env, types: Seq<Ty>, e: ExprV)
    requires
        c_expr(c, env, types, e) is Ok,
    ensures
        expr_calls_ok(c.prog.funcs, e),
    decreases e,
{
    match e.kind {
        ExprKindV::Unary(_, x) => lemma_c_expr_calls(c, env, types, *x),
        ExprKindV::Binary(_, a, b) => {
            lemma_c_expr_calls(c, env, types, *a);
            let t1 = c_expr(c, env, types, *a)->Ok_0.1;
            lemma_c_expr_calls(c, env, t1, *b);
        },
        ExprKindV::Call(name, args) => {
            let f = c.prog.funcs[find_fn(c.prog.funcs, name)->0];
            lemma_c_args_calls(c, env, types, args, f.params);
        },
        _ => {},
    }
}

proof fn lemma_c_args_calls(c: Ctx, env: Env, types: Seq<Ty>, args: Seq<ExprV>, params: Seq<ParamV>)
    requires
        args.len() == params.len(),
        c_args(c, env, types, args, params) is Ok,
    ensures
        exprs_calls_ok(c.prog.funcs, args),
    decreases args,
{
    if args.len() > 0 {
        lemma_c_expr_calls(c, env, types, args[0]);
        let t1 = c_expr(c, env, types, args[0])->Ok_0.1;
        lemma_c_args_calls(c, env, t1, args.drop_first(), params.drop_first());
    }
}

proof fn lemma_c_stmt_calls(c: Ctx, env: Env, types: Seq<Ty>, s: StmtV)
    requires
        c_stmt(c, env, types, s) is Ok,
    ensures
        stmt_calls_ok(c.prog.funcs, s),
    decreases s, 1int,
{
    match s.kind {
        StmtKindV::Let { init, .. } => lemma_c_expr_calls(c, env, types, init),
        StmtKindV::Assign { value, .. } => lemma_c_expr_calls(c, env, types, value),
        StmtKindV::Expr(e) => lemma_c_expr_calls(c, env, types, e),
        StmtKindV::Return(v) => if let Some(e) = v {
            lemma_c_expr_calls(c, env, types, e);
        },
        StmtKindV::If { cond, then, els } => {
            lemma_c_expr_calls(c, env, types, cond);
            let t1 = c_cond(c, env, types, cond)->Ok_0;
            lemma_c_block_calls(c, env, t1, then);
            if let Some(eb) = els {
                let t2 = c_block(c, env, t1, then)->Ok_0.1;
                lemma_c_block_calls(c, env, t2, eb);
            }
        },
        StmtKindV::While { cond, body } => {
            lemma_c_expr_calls(c, env, types, cond);
            let t1 = c_cond(c, env, types, cond)->Ok_0;
            lemma_c_block_calls(c, env, t1, body);
        },
        StmtKindV::Print(e) => lemma_c_expr_calls(c, env, types, e),
    }
}

proof fn lemma_c_block_calls(c: Ctx, env: Env, types: Seq<Ty>, b: BlockV)
    requires
        c_block(c, env, types, b) is Ok,
    ensures
        block_calls_ok(c.prog.funcs, b),
    decreases b, 2int,
{
    lemma_c_stmts_calls(c, env.push(Seq::empty()), types, b.stmts, false);
}

proof fn lemma_c_stmts_calls(c: Ctx, env: Env, types: Seq<Ty>, stmts: Seq<StmtV>, done: bool)
    requires
        c_stmts(c, env, types, stmts, done) is Ok,
    ensures
        stmts_calls_ok(c.prog.funcs, stmts),
    decreases stmts, 0int,
{
    if stmts.len() > 0 {
        lemma_c_stmt_calls(c, env, types, stmts[0]);
        let (r, env1, t1) = c_stmt(c, env, types, stmts[0])->Ok_0;
        lemma_c_stmts_calls(c, env1, t1, stmts.drop_first(), r);
    }
}

proof fn lemma_c_funcs_calls(prog: ProgramV, types: Seq<Ty>, n: int)
    requires
        0 <= n <= prog.funcs.len(),
        c_funcs(prog, types, n) is Ok,
    ensures
        forall|i: int| 0 <= i < n ==> block_calls_ok(prog.funcs, #[trigger] prog.funcs[i].body),
    decreases n,
{
    if n > 0 {
        lemma_c_funcs_calls(prog, types, n - 1);
        let t1 = c_funcs(prog, types, n - 1)->Ok_0;
        let f = prog.funcs[n - 1];
        let c = Ctx { prog, ret: f.ret };
        let env = c_params(seq![Seq::empty()], f.params)->Ok_0;
        lemma_c_block_calls(c, env, t1, f.body);
    }
}

/// A program that passes the checks has a well-formed `main` and calls
/// that all resolve to a function taking as many arguments as are passed.
pub proof fn lemma_check_ok(prog: ProgramV)
    requires
        spec_check(prog) is Ok,
    ensures
        program_calls_ok(prog),
        find_fn(prog.funcs, "main"@) is Some,
        prog.funcs[find_fn(prog.funcs, "main"@)->0].params.len() == 0,
        prog.funcs[find_fn(prog.funcs, "main"@)->0].ret == Ty::Unit,
{
    lemma_c_funcs_calls(prog, Seq::new(prog.expr_count as nat, |_i: int| Ty::Unit), prog.funcs.len() as int);
}

/// A found function index lies within the list.
pub proof fn lemma_find_fn_range(funcs: Seq<FnDeclV>, name: Seq<char>)
    requires
        find_fn(funcs, name) is Some,
    ensures
        0 <= find_fn(funcs, name)->0 < funcs.len(),
        funcs[find_fn(funcs, name)->0].name == name,
    decreases funcs.len(),
{
    if funcs.len() > 0 && find_fn(funcs.drop_last(), name) is Some {
        lemma_find_fn_range(funcs.drop_last(), name);
    }
}

pub proof fn lemma_exprs_calls_index(funcs: Seq<FnDeclV>, s: Seq<ExprV>)
    requires
        exprs_calls_ok(funcs, s),
    ensures
        forall|j: int| 0 <= j < s.len() ==> expr_calls_ok(funcs, #[trigger] s[j]),
    decreases s.len(),
{
    if s.len() > 0 {
        lemma_exprs_calls_index(funcs, s.drop_first());
        assert forall|j: int| 0 <= j < s.len() implies expr_calls_ok(funcs, #[trigger] s[j]) by {
            if j > 0 {
                assert(s[j] == s.drop_first()[j - 1]);
            }
        }
    }
}

pub proof fn lemma_stmts_calls_index(funcs: Seq<FnDeclV>, s: Seq<StmtV>)
    requires
        stmts_calls_ok(funcs, s),
    ensures
        forall|j: int| 0 <= j < s.len() ==> stmt_calls_ok(funcs, #[trigger] s[j]),
    decreases s.len(),
{
    if s.len() > 0 {
        lemma_stmts_calls_index(funcs, s.drop_first());
        assert forall|j: int| 0 <= j < s.len() implies stmt_calls_ok(funcs, #[trigger] s[j]) by {
            if j > 0 {
                assert(s[j] == s.drop_first()[j - 1]);
            }
        }
    }
}

// ------------------------------------------------------------ checking --

/// A variable in scope.
struct Var {
    name: String,
    ty: Ty,
    mutable: bool,
    span: Span,
}

impl View for Var {
    type V = VarInfo;

    closed spec fn view(&self) -> VarInfo {
        VarInfo { name: self.name@, ty: self.ty, mutable: self.mutable, span: self.span }
    }
}

spec fn scope_v(sc: Seq<Var>) -> Seq<VarInfo> {
    sc.map_values(|v: Var| v@)
}

spec fn env_v(scopes: Seq<Vec<Var>>) -> Env {
    scopes.map_values(|sc: Vec<Var>| scope_v(sc@))
}

/// Appends "`" + the type + "`".
fn push_ty(m: &mut String, t: Ty)
    ensures
        final(m)@ == old(m)@ + quoted(ty_text(t)),
{
    m.append("`");
    m.append(t.text());
    m.append("`");
}

/// Appends "`" + `x` + "`".
fn push_quoted(m: &mut String, x: &str)
    ensures
        final(m)@ == old(m)@ + quoted(x@),
{
    m.append("`");
    m.append(x);
    m.append("`");
}

fn has_type_label(t: Ty) -> (s: String)
    ensures
        s@ == has_type(t),
{
    let mut m = String::from_str("this has type ");
    push_ty(&mut m, t);
    m
}

fn find_in_scope(sc: &Vec<Var>, name: &str) -> (r: Option<usize>)
    ensures
        match r {
            Some(k) => scope_find(scope_v(sc@), name@) == Some(k as int) && k < sc@.len(),
            None => scope_find(scope_v(sc@), name@) is None,
        },
{
    let mut k = sc.len();
    assert(sc@.take(k as int) =~= sc@);
    while k > 0
        invariant
            k <= sc@.len(),
            scope_find(scope_v(sc@), name@) == scope_find(scope_v(sc@.take(k as int)), name@),
        decreases k,
    {
        assert(scope_v(sc@.take(k as int)).drop_last() =~= scope_v(sc@.take(k - 1)));
        if str_eq(sc[k - 1].name.as_str(), name) {
            return Some(k - 1);
        }
        k = k - 1;
    }
    assert(scope_v(sc@.take(0)) =~= Seq::<VarInfo>::empty());
    None
}

/// Index of the first function named `name` among `funcs[..n]`.
fn find_func_upto(funcs: &Vec<FnDecl>, n: usize, name: &str) -> (r: Option<usize>)
    requires
        n <= funcs@.len(),
    ensures
        match r {
            Some(k) => find_fn(funcs@.map_values(|f: FnDecl| f@).take(n as int), name@) == Some(k as int) && k < n,
            None => find_fn(funcs@.map_values(|f: FnDecl| f@).take(n as int), name@) is None,
        },
{
    let ghost fs = funcs@.map_values(|f: FnDecl| f@).take(n as int);
    let mut k: usize = 0;
    while k < n
        invariant
            k <= n <= funcs@.len(),
            fs == funcs@.map_values(|f: FnDecl| f@).take(n as int),
            find_fn(fs.take(k as int), name@) is None,
        decreases n - k,
    {
        assert(fs.take(k + 1).drop_last() =~= fs.take(k as int));
        assert(fs[k as int] == funcs@[k as int]@);
        if str_eq(funcs[k].name.as_str(), name) {
            proof {
                lemma_find_fn_prefix(fs, k as int + 1, name@);
            }
            return Some(k);
        }
        k = k + 1;
    }
    assert(fs.take(k as int) =~= fs);
    None
}

/// Index of the first function named `name`.
fn find_func(funcs: &Vec<FnDecl>, name: &str) -> (r: Option<usize>)
    ensures
        match r {
            Some(k) => find_fn(funcs@.map_values(|f: FnDecl| f@), name@) == Some(k as int) && k < funcs@.len(),
            None => find_fn(funcs@.map_values(|f: FnDecl| f@), name@) is None,
        },
{
    assert(funcs@.map_values(|f: FnDecl| f@).take(funcs@.len() as int) =~= funcs@.map_values(|f: FnDecl| f@));
    find_func_upto(funcs, funcs.len(), name)
}

/// A function found in a prefix is found at the same index in the whole.
pub proof fn lemma_find_fn_prefix(fs: Seq<FnDeclV>, n: int, name: Seq<char>)
    requires
        0 <= n <= fs.len(),
        find_fn(fs.take(n), name) is Some,
    ensures
        find_fn(fs, name) == find_fn(fs.take(n), name),
    decreases fs.len(),
{
    if n < fs.len() {
        assert(fs.drop_last().take(n) =~= fs.take(n));
        lemma_find_fn_prefix(fs.drop_last(), n, name);
    } else {
        assert(fs.take(n) =~= fs);
    }
}

struct Checker<'p> {
    prog: &'p Program,
    types: Vec<Ty>,
    ret: Ty,
    scope: Vec<Vec<Var>>,
}

impl<'p> Checker<'p> {
    spec fn ctx(&self) -> Ctx {
        Ctx { prog: self.prog@, ret: self.ret }
    }

    spec fn env(&self) -> Env {
        env_v(self.scope@)
    }

    spec fn inv(&self) -> bool {
        &&& self.types@.len() == self.prog.expr_count
        &&& self.scope@.len() >= 1
    }

    fn lookup(&self, name: &str) -> (r: Option<(Ty, bool)>)
        ensures
            r == env_lookup(self.env(), name@),
    {
        let mut k = self.scope.len();
        assert(self.scope@.take(k as int) =~= self.scope@);
        while k > 0
            invariant
                k <= self.scope@.len(),
                env_lookup(self.env(), name@) == env_lookup(env_v(self.scope@.take(k as int)), name@),
            decreases k,
        {
            assert(env_v(self.scope@.take(k as int)).drop_last() =~= env_v(self.scope@.take(k - 1)));
            assert(env_v(self.scope@.take(k as int)).last() == scope_v(self.scope@[k - 1]@));
            match find_in_scope(&self.scope[k - 1], name) {
                Some(i) => {
                    return Some((self.scope[k - 1][i].ty, self.scope[k - 1][i].mutable));
                },
                None => {},
            }
            k = k - 1;
        }
        assert(env_v(self.scope@.take(0)) =~= Seq::<Seq<VarInfo>>::empty());
        None
    }

    fn declare(&mut self, name: &str, ty: Ty, mutable: bool, span: Span) -> (r: Result<(), Diagnostic>)
        requires
            old(self).inv(),
        ensures
            final(self).inv(),
            final(self).prog == old(self).prog,
            final(self).ret == old(self).ret,
            final(self).types == old(self).types,
            final(self).scope@.len() == old(self).scope@.len(),
            match r {
                Ok(()) => env_declare(old(self).env(), VarInfo { name: name@, ty, mutable, span }) == Ok::<Env, DiagV>(final(self).env()),
                Err(d) => env_declare(old(self).env(), VarInfo { name: name@, ty, mutable, span }) == Err::<Env, DiagV>(d@),
            },
    {
        let last = self.scope.len() - 1;
        assert(old(self).env().last() == scope_v(self.scope@[last as int]@));
        match find_in_scope(&self.scope[last], name) {
            Some(i) => {
                let mut m = String::from_str("`");
                m.append(name);
                m.append("` is already declared in this scope");
                let mut n = String::from_str("previous declaration at byte ");
                push_nat(&mut n, self.scope[last][i].span.start as u64);
                Err(Diagnostic::new("E016", span, m).note(n))
            },
            None => {
                let v = Var { name: name.to_owned(), ty, mutable, span };
                let ghost vv = v@;
                let mut top = Vec::new();
                std::mem::swap(&mut top, &mut self.scope[last]);
                let ghost old_top = top@;
                top.push(v);
                self.scope.set(last, top);
                proof {
                    assert(scope_v(self.scope@[last as int]@) =~= scope_v(old_top).push(vv));
                    assert(self.env() =~= old(self).env().update(last as int, old(self).env().last().push(vv)));
                }
                Ok(())
            },
        }
    }

    fn expr(&mut self, e: &Expr) -> (r: Result<Ty, Diagnostic>)
        requires
            old(self).inv(),
            expr_ids_lt(e@, old(self).types@.len() as int),
        ensures
            final(self).inv(),
            final(self).prog == old(self).prog,
            final(self).ret == old(self).ret,
            final(self).scope == old(self).scope,
            match r {
                Ok(t) => c_expr(old(self).ctx(), old(self).env(), old(self).types@, e@) == Ok::<(Ty, Seq<Ty>), DiagV>((t, final(self).types@)),
                Err(d) => c_expr(old(self).ctx(), old(self).env(), old(self).types@, e@) == Err::<(Ty, Seq<Ty>), DiagV>(d@),
            },
        decreases e,
    {
        let prog = self.prog;
        let t = match &e.kind {
            ExprKind::Int(_) => Ty::I64,
            ExprKind::Bool(_) => Ty::Bool,
            ExprKind::Str(_) => Ty::Str,
            ExprKind::Var(name) => match self.lookup(name.as_str()) {
                Some((t, _)) => t,
                None => {
                    let mut m = String::from_str("cannot find variable ");
                    push_quoted(&mut m, name.as_str());
                    m.append(" in this scope");
                    let mut d = Diagnostic::new("E010", e.span, m);
                    if find_func(&prog.funcs, name.as_str()).is_some() {
                        let mut n = String::new();
                        push_quoted(&mut n, name.as_str());
                        n.append(" is a function; call it with ");
                        n.append("`");
                        n.append(name.as_str());
                        n.append("(...)");
                        n.append("`");
                        proof {
                            assert(n@ =~= quoted(name@) + " is a function; call it with "@ + quoted(name@ + "(...)"@));
                        }
                        d = d.note(n);
                    }
                    return Err(d);
                },
            },
            ExprKind::Unary(op, x) => {
                let xt = self.expr(x)?;
                let want = if *op == UnOp::Neg { Ty::I64 } else { Ty::Bool };
                if xt != want {
                    let mut m = String::from_str("cannot apply ");
                    push_quoted(&mut m, if *op == UnOp::Neg { "-" } else { "!" });
                    m.append(" to ");
                    push_ty(&mut m, xt);
                    let mut l = String::from_str("expected ");
                    push_ty(&mut l, want);
                    proof {
                        assert(m@ =~= "cannot apply "@ + quoted(if *op == UnOp::Neg { "-"@ } else { "!"@ }) + " to "@ + quoted(ty_text(xt)));
                    }
                    return Err(Diagnostic::new("E011", x.span, m).label(l));
                }
                want
            },
            ExprKind::Binary(op, a, b) => {
                let at = self.expr(a)?;
                let bt = self.expr(b)?;
                match binary_check(*op, e, a, b, at, bt) {
                    Ok(t) => t,
                    Err(d) => {
                        return Err(d);
                    },
                }
            },
            ExprKind::Call(name, args) => {
                let idx = match find_func(&prog.funcs, name.as_str()) {
                    Some(i) => i,
                    None => {
                        let mut m = String::from_str("cannot find function ");
                        push_quoted(&mut m, name.as_str());
                        let mut d = Diagnostic::new("E014", e.span, m);
                        if str_eq(name.as_str(), "print") {
                            d = d.note(String::from_str("`print` is a statement: `print(x);`"));
                        }
                        return Err(d);
                    },
                };
                let f = &prog.funcs[idx];
                let ghost fv = f@;
                assert(fv == self.prog@.funcs[idx as int]);
                if f.params.len() != args.len() {
                    let mut m = String::new();
                    push_quoted(&mut m, name.as_str());
                    m.append(" takes ");
                    push_nat(&mut m, f.params.len() as u64);
                    m.append(" argument");
                    m.append(if f.params.len() == 1 { "" } else { "s" });
                    m.append(" but ");
                    push_nat(&mut m, args.len() as u64);
                    m.append(if args.len() == 1 { " was" } else { " were" });
                    m.append(" supplied");
                    proof {
                        assert(fv.params.len() == f.params@.len());
                        assert(exprs_v(args@).len() == args@.len()) by {
                            lemma_exprs_v(args@);
                        }
                        assert(m@ =~= arity_message(name@, fv.params.len(), exprs_v(args@).len()));
                    }
                    return Err(Diagnostic::new("E013", e.span, m));
                }
                proof {
                    lemma_exprs_v(args@);
                    assert(fv.params.len() == f.params@.len());
                }
                self.call_args(args, f)?;
                f.ret
            },
        };
        self.types.set(e.id, t);
        Ok(t)
    }

    fn call_args(&mut self, args: &Vec<Expr>, f: &FnDecl) -> (r: Result<(), Diagnostic>)
        requires
            old(self).inv(),
            exprs_ids_lt(exprs_v(args@), old(self).types@.len() as int),
            args@.len() == f.params@.len(),
        ensures
            final(self).inv(),
            final(self).prog == old(self).prog,
            final(self).ret == old(self).ret,
            final(self).scope == old(self).scope,
            match r {
                Ok(()) => c_args(old(self).ctx(), old(self).env(), old(self).types@, exprs_v(args@), f@.params) == Ok::<Seq<Ty>, DiagV>(final(self).types@),
                Err(d) => c_args(old(self).ctx(), old(self).env(), old(self).types@, exprs_v(args@), f@.params) == Err::<Seq<Ty>, DiagV>(d@),
            },
        decreases args,
    {
        let ghost av = exprs_v(args@);
        let ghost pv = f@.params;
        proof {
            lemma_exprs_v(args@);
            lemma_exprs_ids_index(av, old(self).types@.len() as int);
        }
        let mut k: usize = 0;
        assert(av.skip(0) =~= av);
        assert(pv.skip(0) =~= pv);
        while k < args.len()
            invariant
                self.inv(),
                self.prog == old(self).prog,
                self.ret == old(self).ret,
                self.scope == old(self).scope,
                self.types@.len() == old(self).types@.len(),
                k <= args@.len(),
                args@.len() == f.params@.len(),
                av == exprs_v(args@),
                av.len() == args@.len(),
                pv == f@.params,
                pv.len() == args@.len(),
                forall|j: int| 0 <= j < args@.len() ==> #[trigger] av[j] == expr_v(args@[j]),
                forall|j: int| 0 <= j < av.len() ==> expr_ids_lt(#[trigger] av[j], self.types@.len() as int),
                c_args(old(self).ctx(), old(self).env(), old(self).types@, av, pv) == c_args(
                    self.ctx(),
                    self.env(),
                    self.types@,
                    av.skip(k as int),
                    pv.skip(k as int),
                ),
            decreases args@.len() - k,
        {
            let ghost before = self.types@;
            assert(av.skip(k as int)[0] == av[k as int]);
            assert(pv.skip(k as int)[0] == pv[k as int]);
            assert(pv[k as int] == f.params@[k as int]@);
            let at = self.expr(&args[k])?;
            if at != f.params[k].ty {
                let mut m = String::from_str("type mismatch: parameter is ");
                push_ty(&mut m, f.params[k].ty);
                m.append(", argument is ");
                push_ty(&mut m, at);
                return Err(Diagnostic::new("E011", args[k].span, m).label(has_type_label(at)));
            }
            assert(av.skip(k as int).drop_first() =~= av.skip(k + 1));
            assert(pv.skip(k as int).drop_first() =~= pv.skip(k + 1));
            k = k + 1;
        }
        Ok(())
    }

    fn cond(&mut self, e: &Expr) -> (r: Result<(), Diagnostic>)
        requires
            old(self).inv(),
            expr_ids_lt(e@, old(self).types@.len() as int),
        ensures
            final(self).inv(),
            final(self).prog == old(self).prog,
            final(self).ret == old(self).ret,
            final(self).scope == old(self).scope,
            match r {
                Ok(()) => c_cond(old(self).ctx(), old(self).env(), old(self).types@, e@) == Ok::<Seq<Ty>, DiagV>(final(self).types@),
                Err(d) => c_cond(old(self).ctx(), old(self).env(), old(self).types@, e@) == Err::<Seq<Ty>, DiagV>(d@),
            },
    {
        let t = self.expr(e)?;
        if t != Ty::Bool {
            let mut m = String::from_str("condition must be `bool`, found ");
            push_ty(&mut m, t);
            return Err(Diagnostic::new("E018", e.span, m).label(has_type_label(t)));
        }
        Ok(())
    }

    fn stmt_let(&mut self, s: &Stmt) -> (r: Result<bool, Diagnostic>)
        requires
            old(self).inv(),
            stmt_ids_lt(s@, old(self).types@.len() as int),
            s.kind is Let,
        ensures
            final(self).inv(),
            final(self).prog == old(self).prog,
            final(self).ret == old(self).ret,
            final(self).scope@.len() == old(self).scope@.len(),
            match r {
                Ok(b) => c_stmt(old(self).ctx(), old(self).env(), old(self).types@, s@) == Ok::<(bool, Env, Seq<Ty>), DiagV>((b, final(self).env(), final(self).types@)),
                Err(d) => c_stmt(old(self).ctx(), old(self).env(), old(self).types@, s@) == Err::<(bool, Env, Seq<Ty>), DiagV>(d@),
            },
    {
        match &s.kind {
            StmtKind::Let { name, name_span, mutable, ty, init } => {
                let it = self.expr(init)?;
                if it == Ty::Unit {
                    return Err(
                        Diagnostic::new("E011", init.span, String::from_str("cannot bind a value of type `()`")).label(
                            String::from_str("this call returns nothing"),
                        ),
                    );
                }
                if it == Ty::Str {
                    return Err(
                        Diagnostic::new(
                            "E011",
                            init.span,
                            String::from_str("string literals can only be used as arguments to `print`"),
                        ),
                    );
                }
                match ty {
                    Some(t) => {
                        if *t != it {
                            let mut m = String::from_str("type mismatch: ");
                            push_quoted(&mut m, name.as_str());
                            m.append(" is declared ");
                            push_ty(&mut m, *t);
                            m.append(" but initialised with ");
                            push_ty(&mut m, it);
                            return Err(Diagnostic::new("E011", init.span, m).label(has_type_label(it)));
                        }
                    },
                    None => {},
                }
                self.declare(name.as_str(), it, *mutable, *name_span)?;
                Ok(false)
            },
            _ => Ok(false),
        }
    }

    fn stmt_assign(&mut self, s: &Stmt) -> (r: Result<bool, Diagnostic>)
        requires
            old(self).inv(),
            stmt_ids_lt(s@, old(self).types@.len() as int),
            s.kind is Assign,
        ensures
            final(self).inv(),
            final(self).prog == old(self).prog,
            final(self).ret == old(self).ret,
            final(self).scope == old(self).scope,
            match r {
                Ok(b) => c_stmt(old(self).ctx(), old(self).env(), old(self).types@, s@) == Ok::<(bool, Env, Seq<Ty>), DiagV>((b, final(self).env(), final(self).types@)),
                Err(d) => c_stmt(old(self).ctx(), old(self).env(), old(self).types@, s@) == Err::<(bool, Env, Seq<Ty>), DiagV>(d@),
            },
    {
        match &s.kind {
            StmtKind::Assign { name, name_span, value } => {
                let vt = self.expr(value)?;
                let (t, mutable) = match self.lookup(name.as_str()) {
                    Some(x) => x,
                    None => {
                        let mut m = String::from_str("cannot find variable ");
                        push_quoted(&mut m, name.as_str());
                        m.append(" in this scope");
                        return Err(Diagnostic::new("E010", *name_span, m));
                    },
                };
                if !mutable {
                    let mut m = String::from_str("cannot assign twice to immutable variable ");
                    push_quoted(&mut m, name.as_str());
                    let mut n = String::from_str("declare it with ");
                    n.append("`");
                    n.append("let mut ");
                    n.append(name.as_str());
                    n.append("`");
                    n.append(" to allow assignment");
                    proof {
                        assert(n@ =~= "declare it with "@ + quoted("let mut "@ + name@) + " to allow assignment"@);
                    }
                    return Err(Diagnostic::new("E012", *name_span, m).note(n));
                }
                if t != vt {
                    let mut m = String::from_str("type mismatch: ");
                    push_quoted(&mut m, name.as_str());
                    m.append(" is ");
                    push_ty(&mut m, t);
                    m.append(" but the value is ");
                    push_ty(&mut m, vt);
                    return Err(Diagnostic::new("E011", value.span, m).label(has_type_label(vt)));
                }
                Ok(false)
            },
            _ => Ok(false),
        }
    }

    fn stmt_simple(&mut self, s: &Stmt) -> (r: Result<bool, Diagnostic>)
        requires
            old(self).inv(),
            stmt_ids_lt(s@, old(self).types@.len() as int),
            s.kind is Expr || s.kind is Return || s.kind is Print,
        ensures
            final(self).inv(),
            final(self).prog == old(self).prog,
            final(self).ret == old(self).ret,
            final(self).scope == old(self).scope,
            match r {
                Ok(b) => c_stmt(old(self).ctx(), old(self).env(), old(self).types@, s@) == Ok::<(bool, Env, Seq<Ty>), DiagV>((b, final(self).env(), final(self).types@)),
                Err(d) => c_stmt(old(self).ctx(), old(self).env(), old(self).types@, s@) == Err::<(bool, Env, Seq<Ty>), DiagV>(d@),
            },
    {
        match &s.kind {
            StmtKind::Expr(e) => {
                let _t = self.expr(e)?;
                let is_call = match &e.kind {
                    ExprKind::Call(..) => true,
                    _ => false,
                };
                if !is_call {
                    return Err(
                        Diagnostic::new("E020", e.span, String::from_str("expression statement has no effect")).note(
                            String::from_str("only function calls may be used as statements"),
                        ),
                    );
                }
                Ok(false)
            },
            StmtKind::Return(v) => {
                match v {
                    None => {
                        if self.ret != Ty::Unit {
                            let mut m = String::from_str("`return` without a value in a function returning ");
                            push_ty(&mut m, self.ret);
                            return Err(Diagnostic::new("E011", s.span, m));
                        }
                    },
                    Some(e) => {
                        if self.ret == Ty::Unit {
                            return Err(
                                Diagnostic::new(
                                    "E011",
                                    e.span,
                                    String::from_str("returning a value from a function declared without `->`"),
                                ).label(String::from_str("remove this value or add a return type")),
                            );
                        }
                        let et = self.expr(e)?;
                        if et != self.ret {
                            let mut m = String::from_str("type mismatch: expected ");
                            push_ty(&mut m, self.ret);
                            m.append(", found ");
                            push_ty(&mut m, et);
                            return Err(Diagnostic::new("E011", e.span, m).label(has_type_label(et)));
                        }
                    },
                }
                Ok(true)
            },
            StmtKind::Print(e) => {
                let t = self.expr(e)?;
                if t == Ty::Unit {
                    return Err(Diagnostic::new("E011", e.span, String::from_str("cannot print a value of type `()`")));
                }
                Ok(false)
            },
            _ => Ok(false),
        }
    }

    fn stmt_control(&mut self, s: &Stmt) -> (r: Result<bool, Diagnostic>)
        requires
            old(self).inv(),
            stmt_ids_lt(s@, old(self).types@.len() as int),
            s.kind is If || s.kind is While,
        ensures
            final(self).inv(),
            final(self).prog == old(self).prog,
            final(self).ret == old(self).ret,
            final(self).scope@.len() >= old(self).scope@.len(),
            r is Ok ==> final(self).env() == old(self).env() && final(self).scope@.len() == old(self).scope@.len(),
            match r {
                Ok(b) => c_stmt(old(self).ctx(), old(self).env(), old(self).types@, s@) == Ok::<(bool, Env, Seq<Ty>), DiagV>((b, final(self).env(), final(self).types@)),
                Err(d) => c_stmt(old(self).ctx(), old(self).env(), old(self).types@, s@) == Err::<(bool, Env, Seq<Ty>), DiagV>(d@),
            },
        decreases s, 1int,
    {
        match &s.kind {
            StmtKind::If { cond, then, els } => {
                self.cond(cond)?;
                let a = self.block(then)?;
                let b = match els {
                    Some(e) => self.block(e)?,
                    None => false,
                };
                Ok(a && b)
            },
            StmtKind::While { cond, body } => {
                self.cond(cond)?;
                self.block(body)?;
                Ok(false)
            },
            _ => Ok(false),
        }
    }

    fn stmt(&mut self, s: &Stmt) -> (r: Result<bool, Diagnostic>)
        requires
            old(self).inv(),
            stmt_ids_lt(s@, old(self).types@.len() as int),
        ensures
            final(self).inv(),
            final(self).prog == old(self).prog,
            final(self).ret == old(self).ret,
            final(self).scope@.len() >= old(self).scope@.len(),
            r is Ok ==> final(self).scope@.len() == old(self).scope@.len(),
            match r {
                Ok(b) => c_stmt(old(self).ctx(), old(self).env(), old(self).types@, s@) == Ok::<(bool, Env, Seq<Ty>), DiagV>((b, final(self).env(), final(self).types@)),
                Err(d) => c_stmt(old(self).ctx(), old(self).env(), old(self).types@, s@) == Err::<(bool, Env, Seq<Ty>), DiagV>(d@),
            },
        decreases s, 2int,
    {
        match &s.kind {
            StmtKind::Let { .. } => self.stmt_let(s),
            StmtKind::Assign { .. } => self.stmt_assign(s),
            StmtKind::If { .. } | StmtKind::While { .. } => self.stmt_control(s),
            _ => self.stmt_simple(s),
        }
    }

    /// Returns whether the block definitely returns.
    fn block(&mut self, b: &Block) -> (r: Result<bool, Diagnostic>)
        requires
            old(self).inv(),
            block_ids_lt(b@, old(self).types@.len() as int),
        ensures
            final(self).inv(),
            final(self).prog == old(self).prog,
            final(self).ret == old(self).ret,
            final(self).scope@.len() >= old(self).scope@.len(),
            r is Ok ==> final(self).env() == old(self).env() && final(self).scope@.len() == old(self).scope@.len(),
            match r {
                Ok(done) => c_block(old(self).ctx(), old(self).env(), old(self).types@, b@) == Ok::<(bool, Seq<Ty>), DiagV>((done, final(self).types@)),
                Err(d) => c_block(old(self).ctx(), old(self).env(), old(self).types@, b@) == Err::<(bool, Seq<Ty>), DiagV>(d@),
            },
        decreases b, 3int,
    {
        let ghost env0 = self.env();
        let ghost n = self.scope@.len();
        let ghost sv = stmts_v(b.stmts@);
        proof {
            lemma_stmts_v(b.stmts@);
            lemma_stmts_ids_index(sv, self.types@.len() as int);
        }
        self.scope.push(Vec::new());
        proof {
            assert(self.scope@[n as int]@ == Seq::<Var>::empty());
            assert(scope_v(self.scope@[n as int]@) =~= Seq::<VarInfo>::empty());
            assert(self.env() =~= env0.push(Seq::empty()));
        }
        let mut done = false;
        let mut k: usize = 0;
        assert(sv.skip(0) =~= sv);
        while k < b.stmts.len()
            invariant
                self.inv(),
                self.prog == old(self).prog,
                self.ret == old(self).ret,
                self.types@.len() == old(self).types@.len(),
                self.scope@.len() == n + 1,
                n == old(self).scope@.len(),
                env0 == old(self).env(),
                self.env().take(n as int) == env0,
                k <= b.stmts@.len(),
                sv == stmts_v(b.stmts@),
                sv.len() == b.stmts@.len(),
                forall|j: int| 0 <= j < b.stmts@.len() ==> #[trigger] sv[j] == stmt_v(b.stmts@[j]),
                forall|j: int| 0 <= j < sv.len() ==> stmt_ids_lt(#[trigger] sv[j], self.types@.len() as int),
                c_block(old(self).ctx(), env0, old(self).types@, b@) == c_stmts(
                    self.ctx(),
                    self.env(),
                    self.types@,
                    sv.skip(k as int),
                    done,
                ),
            decreases b.stmts@.len() - k,
        {
            assert(sv.skip(k as int)[0] == sv[k as int]);
            if done {
                return Err(
                    Diagnostic::new("E019", b.stmts[k].span, String::from_str("unreachable statement")).note(
                        String::from_str("a `return` above it always exits the function"),
                    ),
                );
            }
            let ghost env_before = self.env();
            let ghost types_before = self.types@;
            let r = self.stmt(&b.stmts[k])?;
            proof {
                lemma_c_stmt_env(self.ctx(), env_before, types_before, sv[k as int]);
                assert(self.env().take(n as int) =~= env_before.take(n as int));
            }
            done = done || r;
            assert(sv.skip(k as int).drop_first() =~= sv.skip(k + 1));
            k = k + 1;
        }
        self.scope.pop();
        assert(self.env() =~= env0);
        Ok(done)
    }

    fn func(&mut self, f: &FnDecl) -> (r: Result<(), Diagnostic>)
        requires
            old(self).inv(),
            block_ids_lt(f@.body, old(self).types@.len() as int),
        ensures
            final(self).inv(),
            final(self).prog == old(self).prog,
            match r {
                Ok(()) => c_func(old(self).prog@, old(self).types@, f@) == Ok::<Seq<Ty>, DiagV>(final(self).types@),
                Err(d) => c_func(old(self).prog@, old(self).types@, f@) == Err::<Seq<Ty>, DiagV>(d@),
            },
    {
        self.ret = f.ret;
        let mut first: Vec<Var> = Vec::new();
        let mut scope: Vec<Vec<Var>> = Vec::new();
        scope.push(first);
        self.scope = scope;
        let ghost pv = f@.params;
        proof {
            assert(self.scope@[0]@ == Seq::<Var>::empty());
            assert(scope_v(self.scope@[0]@) =~= Seq::<VarInfo>::empty());
            assert(self.env() =~= seq![Seq::<VarInfo>::empty()]);
        }
        let mut k: usize = 0;
        assert(pv.take(0) =~= Seq::<ParamV>::empty());
        while k < f.params.len()
            invariant
                self.inv(),
                self.prog == old(self).prog,
                self.ret == f.ret,
                self.types == old(self).types,
                self.scope@.len() == 1,
                k <= f.params@.len(),
                pv == f@.params,
                c_params(seq![Seq::empty()], pv.take(k as int)) == Ok::<Env, DiagV>(self.env()),
            decreases f.params@.len() - k,
        {
            assert(pv.take(k + 1).drop_last() =~= pv.take(k as int));
            assert(pv.take(k + 1).last() == f.params@[k as int]@);
            let p = &f.params[k];
            match self.declare(p.name.as_str(), p.ty, false, p.span) {
                Ok(()) => {},
                Err(d) => {
                    proof {
                        lemma_c_params_err(seq![Seq::empty()], pv, k as int + 1);
                    }
                    return Err(d);
                },
            }
            k = k + 1;
        }
        assert(pv.take(k as int) =~= pv);
        let done = self.block(&f.body)?;
        self.scope.pop();
        if f.ret != Ty::Unit && !done {
            let mut m = String::from_str("function ");
            push_quoted(&mut m, f.name.as_str());
            m.append(" returns ");
            push_ty(&mut m, f.ret);
            m.append(" but not every path returns a value");
            let mut scope: Vec<Vec<Var>> = Vec::new();
            scope.push(Vec::new());
            self.scope = scope;
            return Err(
                Diagnostic::new("E015", f.name_span, m).label(String::from_str("declared here")).note(
                    String::from_str("add a `return` at the end, or make every `if` branch return"),
                ),
            );
        }
        let mut scope: Vec<Vec<Var>> = Vec::new();
        scope.push(Vec::new());
        self.scope = scope;
        Ok(())
    }
}

/// Checks a parsed program: function names, the `main` contract, then each
/// function in declaration order. On success, the type of every expression
/// and the function table.
pub fn check(prog: &Program) -> (r: Result<Typed, Diagnostic>)
    requires
        program_ids_ok(prog@),
    ensures
        match r {
            Ok(t) => {
                &&& spec_check(prog@) == Ok::<Seq<Ty>, DiagV>(t.expr_types@)
                &&& fn_index_view(t.fn_index@) == fn_table(prog@.funcs)
                &&& t.expr_types@.len() == prog.expr_count
            },
            Err(d) => spec_check(prog@) == Err::<Seq<Ty>, DiagV>(d@),
        },
{
    let n = prog.funcs.len();
    let ghost fs = prog@.funcs;
    let mut fn_index: Vec<(String, usize)> = Vec::new();
    let mut i: usize = 0;
    while i < n
        invariant
            n == prog.funcs@.len(),
            fs == prog@.funcs,
            fs.len() == n,
            i <= n,
            c_names(fs, i as int) == Ok::<(), DiagV>(()),
            fn_index_view(fn_index@) =~= fn_table(fs.take(i as int)),
        decreases n - i,
    {
        let f = &prog.funcs[i];
        assert(fs[i as int] == f@);
        if str_eq(f.name.as_str(), "print") {
            proof {
                lemma_c_names_err(fs, i as int + 1, n as int);
            }
            return Err(Diagnostic::new("E016", f.name_span, String::from_str("`print` is a builtin and cannot be redefined")));
        }
        if find_func_upto(&prog.funcs, i, f.name.as_str()).is_some() {
            let mut m = String::from_str("function ");
            push_quoted(&mut m, f.name.as_str());
            m.append(" is defined twice");
            proof {
                assert(prog.funcs@.map_values(|f: FnDecl| f@).take(i as int) == fs.take(i as int));
                lemma_c_names_err(fs, i as int + 1, n as int);
            }
            return Err(Diagnostic::new("E016", f.name_span, m));
        }
        let ghost old_idx = fn_index@;
        fn_index.push((f.name.clone(), i));
        proof {
            assert(fn_index_view(fn_index@) =~= fn_index_view(old_idx).push((f@.name, i as int)));
            assert(fn_table(fs.take(i + 1)) =~= fn_table(fs.take(i as int)).push((fs[i as int].name, i as int)));
        }
        i = i + 1;
    }
    assert(fs.take(n as int) =~= fs);
    let main = match find_func(&prog.funcs, "main") {
        Some(k) => k,
        None => {
            return Err(
                Diagnostic::new("E017", Span::default(), String::from_str("no `main` function")).note(
                    String::from_str("every Ash program starts at `fn main() { ... }`"),
                ),
            );
        },
    };
    let m = &prog.funcs[main];
    assert(fs[main as int] == m@);
    if m.params.len() != 0 || m.ret != Ty::Unit {
        return Err(Diagnostic::new("E017", m.name_span, String::from_str("`main` must take no parameters and return nothing")));
    }
    let mut types: Vec<Ty> = Vec::new();
    while types.len() < prog.expr_count
        invariant
            types@.len() <= prog.expr_count,
            forall|j: int| 0 <= j < types@.len() ==> types@[j] == Ty::Unit,
        decreases prog.expr_count - types@.len(),
    {
        types.push(Ty::Unit);
    }
    let ghost types0 = types@;
    assert(types0 =~= Seq::new(prog@.expr_count as nat, |_i: int| Ty::Unit));
    assert(spec_check(prog@) == c_funcs(prog@, types0, n as int));
    let mut scope: Vec<Vec<Var>> = Vec::new();
    scope.push(Vec::new());
    let mut c = Checker { prog, types, ret: Ty::Unit, scope };
    let mut k: usize = 0;
    while k < n
        invariant
            c.inv(),
            c.prog == prog,
            n == prog.funcs@.len(),
            fs == prog@.funcs,
            k <= n,
            program_ids_ok(prog@),
            c.types@.len() == prog.expr_count,
            c_funcs(prog@, types0, k as int) == Ok::<Seq<Ty>, DiagV>(c.types@),
            spec_check(prog@) == c_funcs(prog@, types0, n as int),
        decreases n - k,
    {
        assert(fs[k as int] == prog.funcs@[k as int]@);
        assert(block_ids_lt(fs[k as int].body, prog@.expr_count));
        let ghost before = c.types@;
        assert(c_funcs(prog@, types0, k as int + 1) == c_func(prog@, before, fs[k as int]));
        match c.func(&prog.funcs[k]) {
            Ok(()) => {},
            Err(d) => {
                proof {
                    assert(c_func(prog@, before, fs[k as int]) == Err::<Seq<Ty>, DiagV>(d@));
                    lemma_c_funcs_err(prog@, types0, k as int + 1, n as int);
                }
                return Err(d);
            },
        }
        k = k + 1;
    }
    Ok(Typed { expr_types: c.types, fn_index })
}

/// Type of a binary operation, or the diagnostic (`binary_type`).
fn binary_check(op: BinOp, e: &Expr, a: &Expr, b: &Expr, at: Ty, bt: Ty) -> (r: Result<Ty, Diagnostic>)
    ensures
        match r {
            Ok(t) => binary_type(op, e@, a@, b@, at, bt) == Ok::<Ty, DiagV>(t),
            Err(d) => binary_type(op, e@, a@, b@, at, bt) == Err::<Ty, DiagV>(d@),
        },
{
    let arith = match op {
        BinOp::Add | BinOp::Sub | BinOp::Mul | BinOp::Div | BinOp::Rem | BinOp::Lt | BinOp::Le
        | BinOp::Gt | BinOp::Ge => true,
        _ => false,
    };
    if arith {
        if at != Ty::I64 {
            return Err(operand_error(op, a, at, " expects `i64` operands, found "));
        }
        if bt != Ty::I64 {
            return Err(operand_error(op, b, bt, " expects `i64` operands, found "));
        }
        match op {
            BinOp::Lt | BinOp::Le | BinOp::Gt | BinOp::Ge => Ok(Ty::Bool),
            _ => Ok(Ty::I64),
        }
    } else if op == BinOp::Eq || op == BinOp::Ne {
        if at != bt || at == Ty::Str || at == Ty::Unit {
            let mut m = String::from_str("cannot compare ");
            push_ty(&mut m, at);
            m.append(" with ");
            push_ty(&mut m, bt);
            return Err(Diagnostic::new("E011", e.span, m));
        }
        Ok(Ty::Bool)
    } else {
        if at != Ty::Bool {
            return Err(operand_error(op, a, at, " expects `bool` operands, found "));
        }
        if bt != Ty::Bool {
            return Err(operand_error(op, b, bt, " expects `bool` operands, found "));
        }
        Ok(Ty::Bool)
    }
}

fn operand_error(op: BinOp, x: &Expr, t: Ty, middle: &str) -> (d: Diagnostic)
    ensures
        d@ == e011(x@.span, "operator "@ + quoted(binop_text(op)) + middle@ + quoted(ty_text(t))).with_label(has_type(t)),
{
    let mut m = String::from_str("operator ");
    push_quoted(&mut m, op.text());
    m.append(middle);
    push_ty(&mut m, t);
    Diagnostic::new("E011", x.span, m).label(has_type_label(t))
}

pub proof fn lemma_exprs_ids_index(s: Seq<ExprV>, n: int)
    requires
        exprs_ids_lt(s, n),
    ensures
        forall|j: int| 0 <= j < s.len() ==> expr_ids_lt(#[trigger] s[j], n),
    decreases s.len(),
{
    if s.len() > 0 {
        lemma_exprs_ids_index(s.drop_first(), n);
        assert forall|j: int| 0 <= j < s.len() implies expr_ids_lt(#[trigger] s[j], n) by {
            if j > 0 {
                assert(s[j] == s.drop_first()[j - 1]);
            }
        }
    }
}

pub proof fn lemma_stmts_ids_index(s: Seq<StmtV>, n: int)
    requires
        stmts_ids_lt(s, n),
    ensures
        forall|j: int| 0 <= j < s.len() ==> stmt_ids_lt(#[trigger] s[j], n),
    decreases s.len(),
{
    if s.len() > 0 {
        lemma_stmts_ids_index(s.drop_first(), n);
        assert forall|j: int| 0 <= j < s.len() implies stmt_ids_lt(#[trigger] s[j], n) by {
            if j > 0 {
                assert(s[j] == s.drop_first()[j - 1]);
            }
        }
    }
}

/// A statement changes at most the innermost scope.
proof fn lemma_c_stmt_env(c: Ctx, env: Env, types: Seq<Ty>, s: StmtV)
    requires
        env.len() >= 1,
        c_stmt(c, env, types, s) is Ok,
    ensures
        c_stmt(c, env, types, s)->Ok_0.1.len() == env.len(),
        c_stmt(c, env, types, s)->Ok_0.1.take(env.len() - 1) == env.take(env.len() - 1),
{
    let env1 = c_stmt(c, env, types, s)->Ok_0.1;
    assert(env1.take(env.len() - 1) =~= env.take(env.len() - 1));
}

/// An error among the first `k` function names is the error for all `n`.
proof fn lemma_c_names_err(fs: Seq<FnDeclV>, k: int, n: int)
    requires
        0 <= k <= n,
        c_names(fs, k) is Err,
    ensures
        c_names(fs, n) == c_names(fs, k),
    decreases n - k,
{
    if k < n {
        lemma_c_names_err(fs, k, n - 1);
    }
}

/// An error checking the first `k` functions is the error for all `n`.
proof fn lemma_c_funcs_err(prog: ProgramV, types: Seq<Ty>, k: int, n: int)
    requires
        0 <= k <= n,
        c_funcs(prog, types, k) is Err,
    ensures
        c_funcs(prog, types, n) == c_funcs(prog, types, k),
    decreases n - k,
{
    if k < n {
        lemma_c_funcs_err(prog, types, k, n - 1);
    }
}

/// An error declaring the first `k` parameters is the error for all of them.
proof fn lemma_c_params_err(env: Env, ps: Seq<ParamV>, k: int)
    requires
        0 <= k <= ps.len(),
        c_params(env, ps.take(k)) is Err,
    ensures
        c_params(env, ps) == c_params(env, ps.take(k)),
    decreases ps.len(),
{
    if k < ps.len() {
        assert(ps.drop_last().take(k) =~= ps.take(k));
        lemma_c_params_err(env, ps.drop_last(), k);
    } else {
        assert(ps.take(k) =~= ps);
    }
}

} // verus!
