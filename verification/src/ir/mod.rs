//! Three-address IR with basic blocks: its types, its well-formedness,
//! the one definition of its arithmetic (`eval`), lowering from the typed
//! AST, a printer, and an interpreter.
//!
//! Temps are written by at most one instruction; locals and parameters
//! live in numbered slots accessed by explicit `load`/`store`.

use vstd::prelude::*;

mod interp;
mod lowering;
mod printing;

pub use interp::{Interp, Machine, sem_call, sem_run, step_simple, tick, val};
pub use lowering::{all_written, lower, written_somewhere};
pub use printing::{calls_in_range, dump, program_lines};


verus! {

#[derive(Debug, Clone, Copy, PartialEq, Eq, Structural, Hash)]
pub enum Operand {
    Temp(u32),
    Const(i64),
}

#[derive(Debug, Clone, Copy, PartialEq, Eq, Structural)]
pub enum Op {
    Add,
    Sub,
    Mul,
    Div,
    Rem,
    Lt,
    Le,
    Gt,
    Ge,
    Eq,
    Ne,
}

/// The mnemonic of an operation.
pub open spec fn op_text(op: Op) -> Seq<char> {
    match op {
        Op::Add => "add"@,
        Op::Sub => "sub"@,
        Op::Mul => "mul"@,
        Op::Div => "div"@,
        Op::Rem => "rem"@,
        Op::Lt => "lt"@,
        Op::Le => "le"@,
        Op::Gt => "gt"@,
        Op::Ge => "ge"@,
        Op::Eq => "eq"@,
        Op::Ne => "ne"@,
    }
}

impl Op {
    pub fn text(self) -> (s: &'static str)
        ensures
            s@ == op_text(self),
    {
        match self {
            Op::Add => "add",
            Op::Sub => "sub",
            Op::Mul => "mul",
            Op::Div => "div",
            Op::Rem => "rem",
            Op::Lt => "lt",
            Op::Le => "le",
            Op::Gt => "gt",
            Op::Ge => "ge",
            Op::Eq => "eq",
            Op::Ne => "ne",
        }
    }
}

#[derive(Debug, Clone, PartialEq, Eq)]
pub enum Instr {
    /// `%dst = load slot`
    Load { dst: u32, slot: u32 },
    /// `store slot, src`
    Store { slot: u32, src: Operand },
    /// `%dst = op a, b`
    Bin { dst: u32, op: Op, a: Operand, b: Operand },
    /// `%dst = neg a`
    Neg { dst: u32, a: Operand },
    /// `%dst = not a` (boolean)
    Not { dst: u32, a: Operand },
    /// `%dst = call f(args)`; dst is None for unit functions.
    Call { dst: Option<u32>, func: usize, args: Vec<Operand> },
    PrintInt(Operand),
    PrintBool(Operand),
    /// Index into `Program::strings`.
    PrintStr(usize),
}

#[derive(Debug, Clone, Copy, PartialEq, Eq, Structural)]
pub enum Term {
    Jmp(u32),
    Br { cond: Operand, t: u32, f: u32 },
    Ret(Option<Operand>),
    /// Placeholder while a block is being built.
    Unset,
}

#[derive(Debug, Clone, PartialEq, Eq)]
pub struct BasicBlock {
    pub instrs: Vec<Instr>,
    pub term: Term,
    /// Source line of the first statement lowered into this block (for `.loc`).
    pub line: u32,
}

#[derive(Debug, Clone, PartialEq, Eq)]
pub struct Func {
    pub name: String,
    pub params: u32,
    pub slots: u32,
    pub temps: u32,
    pub blocks: Vec<BasicBlock>,
    pub returns_value: bool,
}

#[derive(Debug, Clone, PartialEq, Eq)]
pub struct Program {
    pub funcs: Vec<Func>,
    pub strings: Vec<String>,
    pub main: usize,
}

impl Default for Program {
    fn default() -> (p: Program)
        ensures
            p.funcs@.len() == 0,
            p.strings@.len() == 0,
            p.main == 0,
    {
        Program { funcs: Vec::new(), strings: Vec::new(), main: 0 }
    }
}

/// A runtime error of an Ash program.
#[derive(Debug, Clone, Copy, PartialEq, Eq, Structural)]
pub enum Trap {
    DivideByZero,
    Overflow,
    StackOverflow,
    StepLimit,
    Io,
}

/// The message of a trap.
pub open spec fn trap_text(t: Trap) -> Seq<char> {
    match t {
        Trap::DivideByZero => "division by zero"@,
        Trap::Overflow => "integer overflow"@,
        Trap::StackOverflow => "stack overflow (call depth limit)"@,
        Trap::StepLimit => "step limit reached"@,
        Trap::Io => "write failed"@,
    }
}

impl Trap {
    /// The message printed for this trap.
    pub fn text(&self) -> (s: &'static str)
        ensures
            s@ == trap_text(*self),
    {
        match self {
            Trap::DivideByZero => "division by zero",
            Trap::Overflow => "integer overflow",
            Trap::StackOverflow => "stack overflow (call depth limit)",
            Trap::StepLimit => "step limit reached",
            Trap::Io => "write failed",
        }
    }
}

// ------------------------------------------------------- well-formedness --

/// A temp operand names one of the function's `temps` temps.
pub open spec fn operand_ok(o: Operand, temps: int) -> bool {
    match o {
        Operand::Temp(t) => t < temps,
        Operand::Const(_) => true,
    }
}

/// An instruction refers only to existing temps, slots, functions (called
/// with as many arguments as they have parameters) and strings.
pub open spec fn instr_ok(i: Instr, temps: int, slots: int, arity: Seq<int>, nstr: int) -> bool {
    match i {
        Instr::Load { dst, slot } => dst < temps && slot < slots,
        Instr::Store { slot, src } => slot < slots && operand_ok(src, temps),
        Instr::Bin { dst, a, b, .. } => dst < temps && operand_ok(a, temps) && operand_ok(b, temps),
        Instr::Neg { dst, a } => dst < temps && operand_ok(a, temps),
        Instr::Not { dst, a } => dst < temps && operand_ok(a, temps),
        Instr::Call { dst, func, args } => {
            &&& func < arity.len()
            &&& args@.len() == arity[func as int]
            &&& (dst matches Some(d) ==> d < temps)
            &&& forall|k: int| 0 <= k < args@.len() ==> operand_ok(#[trigger] args@[k], temps)
        },
        Instr::PrintInt(v) => operand_ok(v, temps),
        Instr::PrintBool(v) => operand_ok(v, temps),
        Instr::PrintStr(k) => k < nstr,
    }
}

/// A terminator jumps to existing blocks; `Unset` is not a terminator.
pub open spec fn term_ok(t: Term, temps: int, nblocks: int) -> bool {
    match t {
        Term::Jmp(b) => b < nblocks,
        Term::Br { cond, t, f } => operand_ok(cond, temps) && t < nblocks && f < nblocks,
        Term::Ret(v) => v matches Some(o) ==> operand_ok(o, temps),
        Term::Unset => false,
    }
}

pub open spec fn instrs_ok(instrs: Seq<Instr>, temps: int, slots: int, arity: Seq<int>, nstr: int) -> bool {
    forall|k: int| 0 <= k < instrs.len() ==> instr_ok(#[trigger] instrs[k], temps, slots, arity, nstr)
}

pub open spec fn block_ok(b: BasicBlock, f: Func, arity: Seq<int>, nstr: int) -> bool {
    &&& instrs_ok(b.instrs@, f.temps as int, f.slots as int, arity, nstr)
    &&& term_ok(b.term, f.temps as int, f.blocks@.len() as int)
}

/// A function whose parameters fit its slots, with an entry block, and
/// whose blocks are all well formed.
pub open spec fn func_ok(f: Func, arity: Seq<int>, nstr: int) -> bool {
    &&& f.params <= f.slots
    &&& f.blocks@.len() >= 1
    &&& f.blocks@.len() <= u32::MAX
    &&& forall|b: int| 0 <= b < f.blocks@.len() ==> block_ok(#[trigger] f.blocks@[b], f, arity, nstr)
}

/// The blocks a terminator can go to.
pub open spec fn succs(t: Term) -> Seq<u32> {
    match t {
        Term::Jmp(x) => seq![x],
        Term::Br { t, f, .. } => seq![t, f],
        _ => Seq::empty(),
    }
}

/// No block of `f` jumps or branches to the entry.
pub open spec fn entry_never_entered(f: Func) -> bool {
    forall|j: int, k: int| 0 <= j < f.blocks@.len() && 0 <= k < succs(f.blocks@[j].term).len() ==> #[trigger] succs(f.blocks@[j].term)[k] != 0
}

/// The temp an instruction writes, if any.
pub open spec fn writes(i: Instr) -> Option<u32> {
    match i {
        Instr::Load { dst, .. } => Some(dst),
        Instr::Bin { dst, .. } => Some(dst),
        Instr::Neg { dst, .. } => Some(dst),
        Instr::Not { dst, .. } => Some(dst),
        Instr::Call { dst, .. } => dst,
        _ => None,
    }
}

/// Every temp written by an instruction of these blocks is below `d`.
pub open spec fn written_below(bs: Seq<BasicBlock>, d: int) -> bool {
    forall|b: int, k: int|
        0 <= b < bs.len() && 0 <= k < bs[b].instrs@.len() && (#[trigger] writes(bs[b].instrs@[k])) is Some ==> writes(
            bs[b].instrs@[k],
        )->0 < d
}

/// No two instructions of these blocks write the same temp.
pub open spec fn writes_once(bs: Seq<BasicBlock>) -> bool {
    forall|b1: int, k1: int, b2: int, k2: int|
        0 <= b1 < bs.len() && 0 <= k1 < bs[b1].instrs@.len() && 0 <= b2 < bs.len() && 0 <= k2 < bs[b2].instrs@.len()
            && (#[trigger] writes(bs[b1].instrs@[k1])) is Some && #[trigger] writes(bs[b2].instrs@[k2]) == writes(
            bs[b1].instrs@[k1],
        ) ==> b1 == b2 && k1 == k2
}

/// The number of parameters of each function.
pub open spec fn arities(p: Program) -> Seq<int> {
    p.funcs@.map_values(|f: Func| f.params as int)
}

/// A program the interpreter and the code generator accept: `main`
/// exists and every function is well formed.
pub open spec fn ir_wf(p: Program) -> bool {
    &&& p.main < p.funcs@.len()
    &&& forall|i: int| 0 <= i < p.funcs@.len() ==> func_ok(#[trigger] p.funcs@[i], arities(p), p.strings@.len() as int)
}

/// Well-formedness survives more temps, slots and strings.
pub proof fn lemma_instr_ok_mono(i: Instr, t: int, s: int, ar: Seq<int>, n: int, t2: int, s2: int, n2: int)
    requires
        instr_ok(i, t, s, ar, n),
        t <= t2,
        s <= s2,
        n <= n2,
    ensures
        instr_ok(i, t2, s2, ar, n2),
{
    if let Instr::Call { args, .. } = i {
        assert forall|k: int| 0 <= k < args@.len() implies operand_ok(#[trigger] args@[k], t2) by {
            assert(operand_ok(args@[k], t));
        }
    }
}

// ------------------------------------------------------------ arithmetic --

/// Division truncating toward zero.
pub open spec fn trunc_div(x: int, y: int) -> int {
    if x >= 0 && y > 0 {
        x / y
    } else if x < 0 && y < 0 {
        (-x) / (-y)
    } else if x < 0 {
        -((-x) / y)
    } else {
        -(x / (-y))
    }
}

/// Remainder of division truncating toward zero; it has the sign of `x`.
pub open spec fn trunc_rem(x: int, y: int) -> int {
    x - y * trunc_div(x, y)
}

/// A 0/1 boolean.
pub open spec fn flag(b: bool) -> i64 {
    if b { 1 } else { 0 }
}

pub open spec fn in_i64(v: int) -> bool {
    i64::MIN <= v <= i64::MAX
}

/// The value of an operation: integer overflow and division by zero trap,
/// comparisons give 0 or 1.
pub open spec fn spec_eval(op: Op, x: i64, y: i64) -> Result<i64, Trap> {
    match op {
        Op::Add => if in_i64(x + y) { Ok((x + y) as i64) } else { Err(Trap::Overflow) },
        Op::Sub => if in_i64(x - y) { Ok((x - y) as i64) } else { Err(Trap::Overflow) },
        Op::Mul => if in_i64(x * y) { Ok((x * y) as i64) } else { Err(Trap::Overflow) },
        Op::Div => if y == 0 {
            Err(Trap::DivideByZero)
        } else if in_i64(trunc_div(x as int, y as int)) {
            Ok(trunc_div(x as int, y as int) as i64)
        } else {
            Err(Trap::Overflow)
        },
        Op::Rem => if y == 0 {
            Err(Trap::DivideByZero)
        } else if x == i64::MIN && y == -1 {
            Err(Trap::Overflow)
        } else {
            Ok(trunc_rem(x as int, y as int) as i64)
        },
        Op::Lt => Ok(flag(x < y)),
        Op::Le => Ok(flag(x <= y)),
        Op::Gt => Ok(flag(x > y)),
        Op::Ge => Ok(flag(x >= y)),
        Op::Eq => Ok(flag(x == y)),
        Op::Ne => Ok(flag(x != y)),
    }
}

/// Shared by the interpreter and the constant folder, so folding can never
/// disagree with execution (both trap the same way).
pub fn eval(op: Op, x: i64, y: i64) -> (r: Result<i64, Trap>)
    ensures
        r == spec_eval(op, x, y),
{
    match op {
        Op::Add => match x.checked_add(y) {
            Some(v) => Ok(v),
            None => Err(Trap::Overflow),
        },
        Op::Sub => match x.checked_sub(y) {
            Some(v) => Ok(v),
            None => Err(Trap::Overflow),
        },
        Op::Mul => match x.checked_mul(y) {
            Some(v) => Ok(v),
            None => Err(Trap::Overflow),
        },
        Op::Div => {
            if y == 0 {
                return Err(Trap::DivideByZero);
            }
            match x.checked_div(y) {
                Some(v) => Ok(v),
                None => Err(Trap::Overflow),
            }
        },
        Op::Rem => {
            if y == 0 {
                return Err(Trap::DivideByZero);
            }
            let r = x.checked_rem(y);
            proof {
                lemma_rem_matches(x, y);
            }
            match r {
                Some(v) => Ok(v),
                None => Err(Trap::Overflow),
            }
        },
        Op::Lt => Ok(if x < y { 1 } else { 0 }),
        Op::Le => Ok(if x <= y { 1 } else { 0 }),
        Op::Gt => Ok(if x > y { 1 } else { 0 }),
        Op::Ge => Ok(if x >= y { 1 } else { 0 }),
        Op::Eq => Ok(if x == y { 1 } else { 0 }),
        Op::Ne => Ok(if x != y { 1 } else { 0 }),
    }
}

/// Comparisons follow the order of the integers: each gives 1 when its
/// relation holds between `x` and `y` and 0 when it does not, and never
/// traps; `>` is `<` with its operands swapped, `>=` is `<=` swapped, and
/// `<=`, `>=` and `!=` are the negations of `>`, `<` and `==`.
pub proof fn lemma_comparisons_follow_integer_order(x: i64, y: i64)
    ensures
        spec_eval(Op::Lt, x, y) is Ok && (spec_eval(Op::Lt, x, y)->Ok_0 == 1 <==> (x as int) < (y as int)),
        spec_eval(Op::Le, x, y) is Ok && (spec_eval(Op::Le, x, y)->Ok_0 == 1 <==> (x as int) <= (y as int)),
        spec_eval(Op::Gt, x, y) is Ok && (spec_eval(Op::Gt, x, y)->Ok_0 == 1 <==> (x as int) > (y as int)),
        spec_eval(Op::Ge, x, y) is Ok && (spec_eval(Op::Ge, x, y)->Ok_0 == 1 <==> (x as int) >= (y as int)),
        spec_eval(Op::Eq, x, y) is Ok && (spec_eval(Op::Eq, x, y)->Ok_0 == 1 <==> x as int == y as int),
        spec_eval(Op::Ne, x, y) is Ok && (spec_eval(Op::Ne, x, y)->Ok_0 == 1 <==> x as int != y as int),
        forall|op: Op|
            op == Op::Lt || op == Op::Le || op == Op::Gt || op == Op::Ge || op == Op::Eq || op == Op::Ne ==> (#[trigger] spec_eval(
                op,
                x,
                y,
            ))->Ok_0 == 0 || spec_eval(op, x, y)->Ok_0 == 1,
        spec_eval(Op::Gt, x, y) == spec_eval(Op::Lt, y, x),
        spec_eval(Op::Ge, x, y) == spec_eval(Op::Le, y, x),
        spec_eval(Op::Le, x, y)->Ok_0 == 1 - spec_eval(Op::Gt, x, y)->Ok_0,
        spec_eval(Op::Ge, x, y)->Ok_0 == 1 - spec_eval(Op::Lt, x, y)->Ok_0,
        spec_eval(Op::Ne, x, y)->Ok_0 == 1 - spec_eval(Op::Eq, x, y)->Ok_0,
        spec_eval(Op::Gt, x, x)->Ok_0 == 0 && spec_eval(Op::Lt, x, x)->Ok_0 == 0 && spec_eval(Op::Eq, x, x)->Ok_0 == 1,
{
}

proof fn lemma_rem_matches(x: i64, y: i64)
    requires
        y != 0,
    ensures
        !(x == i64::MIN && y == -1) ==> {
            &&& in_i64(trunc_rem(x as int, y as int))
            &&& x.checked_rem(y) == Some(trunc_rem(x as int, y as int) as i64)
        },
{
    let xi = x as int;
    let d = y as int;
    if !(x == i64::MIN && y == -1) {
        if xi == 0 {
            assert(trunc_div(xi, d) == 0);
        } else if xi > 0 && d > 0 {
            assert(xi % d == xi - d * (xi / d) && 0 <= xi % d < d) by (nonlinear_arith)
                requires d > 0;
            assert(trunc_rem(xi, d) == xi % d);
        } else if xi < 0 && d < 0 {
            let q = (-xi) / (-d);
            assert((-xi) % (-d) == -xi + d * q && 0 <= (-xi) % (-d) < -d)
                by (nonlinear_arith) requires -d > 0, q == (-xi) / (-d);
            assert(trunc_div(xi, d) == q);
            assert(trunc_rem(xi, d) == xi - d * q);
            assert(xi * -1 == -xi && d * -1 == -d);
            assert(trunc_rem(xi, d) == ((xi * -1) % (d * -1)) * -1);
        } else if xi < 0 {
            let q = (-xi) / d;
            assert((-xi) % d == -xi - d * q && 0 <= (-xi) % d < d) by (nonlinear_arith)
                requires d > 0, q == (-xi) / d;
            assert(trunc_div(xi, d) == -q);
            assert(d * (-q) == -(d * q)) by (nonlinear_arith);
            assert(trunc_rem(xi, d) == xi + d * q);
            assert(xi * -1 == -xi);
            assert(trunc_rem(xi, d) == ((xi * -1) % d) * -1);
        } else {
            let q = xi / (-d);
            assert(xi % (-d) == xi + d * q && 0 <= xi % (-d) < -d) by (nonlinear_arith)
                requires -d > 0, q == xi / (-d);
            assert(trunc_div(xi, d) == -q);
            assert(d * (-q) == -(d * q)) by (nonlinear_arith);
            assert(trunc_rem(xi, d) == xi + d * q);
            assert(d * -1 == -d);
            assert(trunc_rem(xi, d) == xi % (d * -1));
        }
    }
}

} // verus!
