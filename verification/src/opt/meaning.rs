//! What the optimizer's passes keep: runs of a program before and after a
//! pass end the same way.
//!
//! Branch folding and unreachable-block removal keep every run exactly,
//! step for step. Dead-code removal, jump threading and block merging take
//! out steps, so a run after them ends with the same result and output in
//! no more steps, wherever the run before them did not stop on the step
//! limit.

use vstd::prelude::*;

use crate::ir::{
    BasicBlock, Func, Instr, Machine, Op, Operand, Program, Term, Trap, arities, block_ok, entry_never_entered, func_ok,
    instr_ok, instrs_ok, ir_wf, operand_ok, sem_call, sem_run, step_simple, succs, term_ok, val,
};
use crate::opt::{count_set, keep_where, lemma_count_set_le, same_header};

verus! {

/// The terminator after branch folding: a branch on a constant becomes a
/// jump to the block it always takes.
pub open spec fn folded_term(t: Term) -> Term {
    match t {
        Term::Br { cond: Operand::Const(c), t, f } => Term::Jmp(if c != 0 { t } else { f }),
        other => other,
    }
}

/// `g` is `f` with its branches on constants folded.
pub open spec fn branches_folded(f: Func, g: Func) -> bool {
    &&& same_header(f, g)
    &&& g.blocks@.len() == f.blocks@.len()
    &&& forall|b: int|
        0 <= b < f.blocks@.len() ==> {
            &&& (#[trigger] g.blocks@[b]).instrs == f.blocks@[b].instrs
            &&& g.blocks@[b].term == folded_term(f.blocks@[b].term)
        }
}

/// `q` is `p` with the branches of every function folded.
pub open spec fn program_branches_folded(p: Program, q: Program) -> bool {
    &&& q.funcs@.len() == p.funcs@.len()
    &&& q.strings@ == p.strings@
    &&& q.main == p.main
    &&& forall|i: int| 0 <= i < p.funcs@.len() ==> branches_folded(#[trigger] p.funcs@[i], q.funcs@[i])
}

proof fn lemma_fold_run(
    p: Program,
    q: Program,
    ms: int,
    md: int,
    fi: int,
    b: int,
    k: int,
    slots: Seq<i64>,
    temps: Seq<i64>,
    m: Machine,
)
    requires
        ir_wf(p),
        program_branches_folded(p, q),
        0 <= fi < p.funcs@.len(),
        0 <= b < p.funcs@[fi].blocks@.len(),
        0 <= k,
    ensures
        sem_run(q, ms, md, fi, b, k, slots, temps, m) == sem_run(p, ms, md, fi, b, k, slots, temps, m),
    decreases ms - m.steps, 0int,
{
    let f = p.funcs@[fi];
    let g = q.funcs@[fi];
    assert(branches_folded(f, g));
    assert(func_ok(f, arities(p), p.strings@.len() as int));
    let blk = f.blocks@[b];
    assert(block_ok(blk, f, arities(p), p.strings@.len() as int));
    assert(g.blocks@[b].instrs == blk.instrs);
    if m.steps >= ms {
    } else if k < blk.instrs@.len() {
        let m1 = crate::ir::tick(m);
        assert(instr_ok(blk.instrs@[k], f.temps as int, f.slots as int, arities(p), p.strings@.len() as int));
        match blk.instrs@[k] {
            Instr::Call { dst, func, args } => {
                let argv = Seq::new(args@.len(), |j: int| val(args@[j], temps));
                assert(arities(p).len() == p.funcs@.len());
                lemma_fold_call(p, q, ms, md, func as int, argv, m1);
                let (r, m2) = sem_call(p, ms, md, func as int, argv, m1);
                if r is Ok && m1.steps <= m2.steps <= ms {
                    let t2 = match dst {
                        Some(d) => temps.update(d as int, r->Ok_0),
                        None => temps,
                    };
                    lemma_fold_run(p, q, ms, md, fi, b, k + 1, slots, t2, m2);
                }
            },
            ins => {
                assert(step_simple(q, ins, slots, temps, m1.out) == step_simple(p, ins, slots, temps, m1.out));
                if let Ok((s2, t2, o2)) = step_simple(p, ins, slots, temps, m1.out) {
                    lemma_fold_run(p, q, ms, md, fi, b, k + 1, s2, t2, Machine { out: o2, ..m1 });
                }
            },
        }
    } else {
        let m1 = crate::ir::tick(m);
        assert(g.blocks@[b].term == folded_term(blk.term));
        match blk.term {
            Term::Jmp(t) => {
                lemma_fold_run(p, q, ms, md, fi, t as int, 0, slots, temps, m1);
            },
            Term::Br { cond, t, f: fb } => {
                let target = if val(cond, temps) != 0 { t as int } else { fb as int };
                lemma_fold_run(p, q, ms, md, fi, target, 0, slots, temps, m1);
            },
            _ => {},
        }
    }
}

proof fn lemma_fold_call(p: Program, q: Program, ms: int, md: int, fi: int, args: Seq<i64>, m: Machine)
    requires
        ir_wf(p),
        program_branches_folded(p, q),
        0 <= fi < p.funcs@.len(),
    ensures
        sem_call(q, ms, md, fi, args, m) == sem_call(p, ms, md, fi, args, m),
    decreases ms - m.steps, 1int,
{
    if m.depth < md {
        let f = p.funcs@[fi];
        assert(branches_folded(f, q.funcs@[fi]));
        assert(func_ok(f, arities(p), p.strings@.len() as int));
        let slots = Seq::new(f.slots as nat, |i: int| if i < args.len() { args[i] } else { 0i64 });
        let temps = Seq::new(f.temps as nat, |_i: int| 0i64);
        lemma_fold_run(p, q, ms, md, fi, 0, 0, slots, temps, Machine { depth: m.depth + 1, ..m });
    }
}

/// Folding branches on constants changes neither what a program prints
/// nor how its calls end, nor how many steps they take.
pub proof fn lemma_branch_folding_keeps_meaning(p: Program, q: Program, ms: int, md: int, fi: int, args: Seq<i64>, m: Machine)
    requires
        ir_wf(p),
        program_branches_folded(p, q),
        0 <= fi < p.funcs@.len(),
    ensures
        sem_call(q, ms, md, fi, args, m) == sem_call(p, ms, md, fi, args, m),
{
    lemma_fold_call(p, q, ms, md, fi, args, m);
}

/// `reach` marks the entry and is closed under the successors of the
/// blocks it marks: every block a run of `f` can enter is marked.
pub open spec fn reach_closed(f: Func, reach: Seq<bool>) -> bool {
    &&& reach.len() == f.blocks@.len()
    &&& reach.len() > 0
    &&& reach[0]
    &&& forall|b: int, k: int|
        0 <= b < reach.len() && reach[b] && 0 <= k < succs(f.blocks@[b].term).len() ==> reach[#[trigger] succs(f.blocks@[b].term)[k] as int]
}

/// A terminator with each target renumbered to its position among the
/// marked blocks.
pub open spec fn renumbered_term(t: Term, reach: Seq<bool>) -> Term {
    match t {
        Term::Jmp(x) => Term::Jmp(count_set(reach, x as int) as u32),
        Term::Br { cond, t, f } => Term::Br { cond, t: count_set(reach, t as int) as u32, f: count_set(reach, f as int) as u32 },
        other => other,
    }
}

/// `g` is `f` with only the blocks marked by `reach` kept, in order, and
/// their targets renumbered.
pub open spec fn blocks_kept(f: Func, g: Func, reach: Seq<bool>) -> bool {
    &&& same_header(f, g)
    &&& reach_closed(f, reach)
    &&& g.blocks@.len() == count_set(reach, reach.len() as int)
    &&& forall|b: int|
        0 <= b < reach.len() && reach[b] ==> {
            &&& g.blocks@[count_set(reach, b) as int].instrs == (#[trigger] f.blocks@[b]).instrs
            &&& g.blocks@[count_set(reach, b) as int].term == renumbered_term(f.blocks@[b].term, reach)
        }
}

/// `q` is `p` with the unreachable blocks of every function removed.
pub open spec fn program_blocks_kept(p: Program, q: Program) -> bool {
    &&& q.funcs@.len() == p.funcs@.len()
    &&& q.strings@ == p.strings@
    &&& q.main == p.main
    &&& forall|i: int| 0 <= i < p.funcs@.len() ==> exists|reach: Seq<bool>| blocks_kept(#[trigger] p.funcs@[i], q.funcs@[i], reach)
}

proof fn lemma_kept_run(
    p: Program,
    q: Program,
    reach: Seq<bool>,
    ms: int,
    md: int,
    fi: int,
    b: int,
    k: int,
    slots: Seq<i64>,
    temps: Seq<i64>,
    m: Machine,
)
    requires
        ir_wf(p),
        program_blocks_kept(p, q),
        0 <= fi < p.funcs@.len(),
        blocks_kept(p.funcs@[fi], q.funcs@[fi], reach),
        0 <= b < p.funcs@[fi].blocks@.len(),
        reach[b],
        0 <= k,
    ensures
        sem_run(q, ms, md, fi, count_set(reach, b) as int, k, slots, temps, m) == sem_run(p, ms, md, fi, b, k, slots, temps, m),
    decreases ms - m.steps, 0int,
{
    let f = p.funcs@[fi];
    let g = q.funcs@[fi];
    let cb = count_set(reach, b) as int;
    assert(func_ok(f, arities(p), p.strings@.len() as int));
    let blk = f.blocks@[b];
    assert(block_ok(blk, f, arities(p), p.strings@.len() as int));
    assert(g.blocks@[cb].instrs == blk.instrs);
    if m.steps >= ms {
    } else if k < blk.instrs@.len() {
        let m1 = crate::ir::tick(m);
        assert(instr_ok(blk.instrs@[k], f.temps as int, f.slots as int, arities(p), p.strings@.len() as int));
        match blk.instrs@[k] {
            Instr::Call { dst, func, args } => {
                let argv = Seq::new(args@.len(), |j: int| val(args@[j], temps));
                assert(arities(p).len() == p.funcs@.len());
                lemma_kept_call(p, q, ms, md, func as int, argv, m1);
                let (r, m2) = sem_call(p, ms, md, func as int, argv, m1);
                if r is Ok && m1.steps <= m2.steps <= ms {
                    let t2 = match dst {
                        Some(d) => temps.update(d as int, r->Ok_0),
                        None => temps,
                    };
                    lemma_kept_run(p, q, reach, ms, md, fi, b, k + 1, slots, t2, m2);
                }
            },
            ins => {
                assert(step_simple(q, ins, slots, temps, m1.out) == step_simple(p, ins, slots, temps, m1.out));
                if let Ok((s2, t2, o2)) = step_simple(p, ins, slots, temps, m1.out) {
                    lemma_kept_run(p, q, reach, ms, md, fi, b, k + 1, s2, t2, Machine { out: o2, ..m1 });
                }
            },
        }
    } else {
        let m1 = crate::ir::tick(m);
        assert(g.blocks@[cb].term == renumbered_term(blk.term, reach));
        match blk.term {
            Term::Jmp(t) => {
                assert(succs(blk.term)[0] == t);
                lemma_count_set_le(reach, t as int);
                lemma_kept_run(p, q, reach, ms, md, fi, t as int, 0, slots, temps, m1);
            },
            Term::Br { cond, t, f: fb } => {
                assert(succs(blk.term)[0] == t);
                assert(succs(blk.term)[1] == fb);
                lemma_count_set_le(reach, t as int);
                lemma_count_set_le(reach, fb as int);
                let target = if val(cond, temps) != 0 { t as int } else { fb as int };
                lemma_kept_run(p, q, reach, ms, md, fi, target, 0, slots, temps, m1);
            },
            _ => {},
        }
    }
}

proof fn lemma_kept_call(p: Program, q: Program, ms: int, md: int, fi: int, args: Seq<i64>, m: Machine)
    requires
        ir_wf(p),
        program_blocks_kept(p, q),
        0 <= fi < p.funcs@.len(),
    ensures
        sem_call(q, ms, md, fi, args, m) == sem_call(p, ms, md, fi, args, m),
    decreases ms - m.steps, 1int,
{
    if m.depth < md {
        let f = p.funcs@[fi];
        let reach = choose|reach: Seq<bool>| blocks_kept(f, q.funcs@[fi], reach);
        assert(func_ok(f, arities(p), p.strings@.len() as int));
        assert(count_set(reach, 0) == 0);
        let slots = Seq::new(f.slots as nat, |i: int| if i < args.len() { args[i] } else { 0i64 });
        let temps = Seq::new(f.temps as nat, |_i: int| 0i64);
        lemma_kept_run(p, q, reach, ms, md, fi, 0, 0, slots, temps, Machine { depth: m.depth + 1, ..m });
    }
}

/// Removing the blocks that no run can enter changes neither what a
/// program prints nor how its calls end, nor how many steps they take.
pub proof fn lemma_block_removal_keeps_meaning(p: Program, q: Program, ms: int, md: int, fi: int, args: Seq<i64>, m: Machine)
    requires
        ir_wf(p),
        program_blocks_kept(p, q),
        0 <= fi < p.funcs@.len(),
    ensures
        sem_call(q, ms, md, fi, args, m) == sem_call(p, ms, md, fi, args, m),
{
    lemma_kept_call(p, q, ms, md, fi, args, m);
}

/// The machine `mq` is where `mp` is, or fewer steps behind it: the same
/// output and call depth, and no more steps taken.
pub open spec fn no_later(mq: Machine, mp: Machine) -> bool {
    &&& mq.out == mp.out
    &&& mq.depth == mp.depth
    &&& mq.steps <= mp.steps
}

/// Two runs end alike: with the same result, having printed the same, at
/// the same depth, the first in no more steps than the second.
pub open spec fn ends_alike(q: (Result<i64, Trap>, Machine), p: (Result<i64, Trap>, Machine)) -> bool {
    &&& q.0 == p.0
    &&& no_later(q.1, p.1)
}

/// A run that stopped on the step limit.
pub open spec fn runs_out(r: Result<i64, Trap>) -> bool {
    r == Err::<i64, Trap>(Trap::StepLimit)
}

/// An operand reads only temps marked live.
pub open spec fn operand_live(o: Operand, lt: Seq<bool>) -> bool {
    match o {
        Operand::Temp(t) => lt[t as int],
        Operand::Const(_) => true,
    }
}

/// An instruction reads only live temps and loads only live slots.
pub open spec fn instr_reads_live(ins: Instr, lt: Seq<bool>, ls: Seq<bool>) -> bool {
    match ins {
        Instr::Load { slot, .. } => ls[slot as int],
        Instr::Store { src, .. } => operand_live(src, lt),
        Instr::Bin { a, b, .. } => operand_live(a, lt) && operand_live(b, lt),
        Instr::Neg { a, .. } => operand_live(a, lt),
        Instr::Not { a, .. } => operand_live(a, lt),
        Instr::Call { args, .. } => forall|j: int| 0 <= j < args@.len() ==> operand_live(#[trigger] args@[j], lt),
        Instr::PrintInt(v) => operand_live(v, lt),
        Instr::PrintBool(v) => operand_live(v, lt),
        Instr::PrintStr(_) => true,
    }
}

/// A terminator reads only live temps.
pub open spec fn term_reads_live(t: Term, lt: Seq<bool>) -> bool {
    match t {
        Term::Br { cond, .. } => operand_live(cond, lt),
        Term::Ret(Some(v)) => operand_live(v, lt),
        _ => true,
    }
}

/// A block reads only live temps and loads only live slots.
pub open spec fn block_reads_live(b: BasicBlock, lt: Seq<bool>, ls: Seq<bool>) -> bool {
    &&& forall|k: int| 0 <= k < b.instrs@.len() ==> instr_reads_live(#[trigger] b.instrs@[k], lt, ls)
    &&& term_reads_live(b.term, lt)
}

/// Whether an operation is a comparison, which never traps.
pub open spec fn is_comparison(op: Op) -> bool {
    op == Op::Lt || op == Op::Le || op == Op::Gt || op == Op::Ge || op == Op::Eq || op == Op::Ne
}

/// An instruction that only writes a dead temp or a dead slot and can
/// neither trap nor have an effect: a store to a dead slot, or a load, a
/// not or a comparison into a dead temp.
pub open spec fn droppable(ins: Instr, lt: Seq<bool>, ls: Seq<bool>) -> bool {
    match ins {
        Instr::Bin { dst, op, .. } => is_comparison(op) && !lt[dst as int],
        Instr::Load { dst, .. } => !lt[dst as int],
        Instr::Not { dst, .. } => !lt[dst as int],
        Instr::Store { slot, .. } => !ls[slot as int],
        _ => false,
    }
}

/// The instructions of `s` that are not droppable, in order.
pub open spec fn kept_instrs(s: Seq<Instr>, lt: Seq<bool>, ls: Seq<bool>) -> Seq<Instr>
    decreases s.len(),
{
    if s.len() == 0 {
        Seq::empty()
    } else {
        let rest = kept_instrs(s.skip(1), lt, ls);
        if droppable(s[0], lt, ls) {
            rest
        } else {
            seq![s[0]] + rest
        }
    }
}

/// `g` is `f` with its droppable instructions taken out, where `f` reads
/// no temp that `lt` marks dead and loads no slot that `ls` marks dead.
pub open spec fn dead_dropped(f: Func, g: Func, lt: Seq<bool>, ls: Seq<bool>) -> bool {
    &&& same_header(f, g)
    &&& lt.len() == f.temps
    &&& ls.len() == f.slots
    &&& g.blocks@.len() == f.blocks@.len()
    &&& forall|b: int|
        0 <= b < f.blocks@.len() ==> {
            &&& block_reads_live(#[trigger] f.blocks@[b], lt, ls)
            &&& g.blocks@[b].term == f.blocks@[b].term
            &&& g.blocks@[b].instrs@ == kept_instrs(f.blocks@[b].instrs@, lt, ls)
        }
}

/// `q` is `p` with dead instructions taken out of every function.
pub open spec fn program_dead_dropped(p: Program, q: Program) -> bool {
    &&& q.funcs@.len() == p.funcs@.len()
    &&& q.strings@ == p.strings@
    &&& q.main == p.main
    &&& forall|i: int|
        0 <= i < p.funcs@.len() ==> exists|lt: Seq<bool>, ls: Seq<bool>| dead_dropped(#[trigger] p.funcs@[i], q.funcs@[i], lt, ls)
}

/// Two stores agree on what is marked live.
pub open spec fn agree(a: Seq<i64>, b: Seq<i64>, live: Seq<bool>) -> bool {
    &&& a.len() == live.len()
    &&& b.len() == live.len()
    &&& forall|i: int| 0 <= i < live.len() && live[i] ==> a[i] == b[i]
}

proof fn lemma_run_steps(p: Program, ms: int, md: int, fi: int, b: int, k: int, slots: Seq<i64>, temps: Seq<i64>, m: Machine)
    ensures
        sem_run(p, ms, md, fi, b, k, slots, temps, m).1.steps >= m.steps,
    decreases ms - m.steps, 0int,
{
    let blk = p.funcs@[fi].blocks@[b];
    if m.steps >= ms {
    } else if 0 <= k < blk.instrs@.len() {
        let m1 = crate::ir::tick(m);
        match blk.instrs@[k] {
            Instr::Call { dst, func, args } => {
                let argv = Seq::new(args@.len(), |j: int| val(args@[j], temps));
                lemma_call_steps(p, ms, md, func as int, argv, m1);
                let (r, m2) = sem_call(p, ms, md, func as int, argv, m1);
                if r is Ok && m1.steps <= m2.steps <= ms {
                    let t2 = match dst {
                        Some(d) => temps.update(d as int, r->Ok_0),
                        None => temps,
                    };
                    lemma_run_steps(p, ms, md, fi, b, k + 1, slots, t2, m2);
                }
            },
            ins => {
                if let Ok((s2, t2, o2)) = step_simple(p, ins, slots, temps, m1.out) {
                    lemma_run_steps(p, ms, md, fi, b, k + 1, s2, t2, Machine { out: o2, ..m1 });
                }
            },
        }
    } else {
        let m1 = crate::ir::tick(m);
        match blk.term {
            Term::Jmp(t) => {
                lemma_run_steps(p, ms, md, fi, t as int, 0, slots, temps, m1);
            },
            Term::Br { cond, t, f } => {
                let target = if val(cond, temps) != 0 { t as int } else { f as int };
                lemma_run_steps(p, ms, md, fi, target, 0, slots, temps, m1);
            },
            _ => {},
        }
    }
}

proof fn lemma_call_steps(p: Program, ms: int, md: int, fi: int, args: Seq<i64>, m: Machine)
    ensures
        sem_call(p, ms, md, fi, args, m).1.steps >= m.steps,
    decreases ms - m.steps, 1int,
{
    if m.depth < md {
        let f = p.funcs@[fi];
        let slots = Seq::new(f.slots as nat, |i: int| if i < args.len() { args[i] } else { 0i64 });
        let temps = Seq::new(f.temps as nat, |_i: int| 0i64);
        lemma_run_steps(p, ms, md, fi, 0, 0, slots, temps, Machine { depth: m.depth + 1, ..m });
    }
}

proof fn lemma_operand_agree(o: Operand, tp: Seq<i64>, tq: Seq<i64>, lt: Seq<bool>)
    requires
        agree(tp, tq, lt),
        operand_ok(o, lt.len() as int),
        operand_live(o, lt),
    ensures
        val(o, tq) == val(o, tp),
{
}

/// A live instruction run on stores that agree on what is live: both trap
/// alike, or both go on with stores that still agree and the same output.
proof fn lemma_step_agree(
    p: Program,
    q: Program,
    ins: Instr,
    sp: Seq<i64>,
    tp: Seq<i64>,
    sq: Seq<i64>,
    tq: Seq<i64>,
    out: Seq<u8>,
    lt: Seq<bool>,
    ls: Seq<bool>,
    ar: Seq<int>,
)
    requires
        q.strings@ == p.strings@,
        instr_ok(ins, lt.len() as int, ls.len() as int, ar, p.strings@.len() as int),
        instr_reads_live(ins, lt, ls),
        !(ins is Call),
        agree(sp, sq, ls),
        agree(tp, tq, lt),
    ensures
        ({
            let rp = step_simple(p, ins, sp, tp, out);
            let rq = step_simple(q, ins, sq, tq, out);
            match rp {
                Err(t) => rq == Err::<(Seq<i64>, Seq<i64>, Seq<u8>), Trap>(t),
                Ok((s2, t2, o2)) => rq is Ok && agree(s2, rq->Ok_0.0, ls) && agree(t2, rq->Ok_0.1, lt) && rq->Ok_0.2 == o2,
            }
        }),
{
    match ins {
        Instr::Load { dst, slot } => {},
        Instr::Store { slot, src } => {
            lemma_operand_agree(src, tp, tq, lt);
        },
        Instr::Bin { dst, op, a, b } => {
            lemma_operand_agree(a, tp, tq, lt);
            lemma_operand_agree(b, tp, tq, lt);
        },
        Instr::Neg { dst, a } => {
            lemma_operand_agree(a, tp, tq, lt);
        },
        Instr::Not { dst, a } => {
            lemma_operand_agree(a, tp, tq, lt);
        },
        Instr::PrintInt(v) => {
            lemma_operand_agree(v, tp, tq, lt);
        },
        Instr::PrintBool(v) => {
            lemma_operand_agree(v, tp, tq, lt);
        },
        _ => {},
    }
}

/// A droppable instruction never traps, prints nothing, and
/// leaves the stores agreeing on what is live.
proof fn lemma_step_droppable(p: Program, ins: Instr, sp: Seq<i64>, tp: Seq<i64>, sq: Seq<i64>, tq: Seq<i64>, out: Seq<u8>, lt: Seq<bool>, ls: Seq<bool>, ar: Seq<int>)
    requires
        instr_ok(ins, lt.len() as int, ls.len() as int, ar, p.strings@.len() as int),
        droppable(ins, lt, ls),
        agree(sp, sq, ls),
        agree(tp, tq, lt),
    ensures
        ({
            let rp = step_simple(p, ins, sp, tp, out);
            match rp {
                Err(_) => false,
                Ok((s2, t2, o2)) => agree(s2, sq, ls) && agree(t2, tq, lt) && o2 == out,
            }
        }),
{
}

proof fn lemma_kept_skip(s: Seq<Instr>, k: int, lt: Seq<bool>, ls: Seq<bool>)
    requires
        0 <= k < s.len(),
    ensures
        kept_instrs(s.skip(k), lt, ls) == if droppable(s[k], lt, ls) {
            kept_instrs(s.skip(k + 1), lt, ls)
        } else {
            seq![s[k]] + kept_instrs(s.skip(k + 1), lt, ls)
        },
{
    assert(s.skip(k).skip(1) =~= s.skip(k + 1));
    assert(s.skip(k)[0] == s[k]);
}

#[verifier::rlimit(30)]
proof fn lemma_dead_run(
    p: Program,
    q: Program,
    lt: Seq<bool>,
    ls: Seq<bool>,
    ms: int,
    md: int,
    fi: int,
    b: int,
    k: int,
    kq: int,
    sp: Seq<i64>,
    tp: Seq<i64>,
    sq: Seq<i64>,
    tq: Seq<i64>,
    mp: Machine,
    mq: Machine,
)
    requires
        ir_wf(p),
        program_dead_dropped(p, q),
        0 <= fi < p.funcs@.len(),
        dead_dropped(p.funcs@[fi], q.funcs@[fi], lt, ls),
        0 <= b < p.funcs@[fi].blocks@.len(),
        0 <= k <= p.funcs@[fi].blocks@[b].instrs@.len(),
        0 <= kq <= q.funcs@[fi].blocks@[b].instrs@.len(),
        q.funcs@[fi].blocks@[b].instrs@.skip(kq) == kept_instrs(p.funcs@[fi].blocks@[b].instrs@.skip(k), lt, ls),
        agree(sp, sq, ls),
        agree(tp, tq, lt),
        no_later(mq, mp),
        !runs_out(sem_run(p, ms, md, fi, b, k, sp, tp, mp).0),
    ensures
        ends_alike(sem_run(q, ms, md, fi, b, kq, sq, tq, mq), sem_run(p, ms, md, fi, b, k, sp, tp, mp)),
    decreases ms - mp.steps, 0int,
{
    let f = p.funcs@[fi];
    let g = q.funcs@[fi];
    assert(func_ok(f, arities(p), p.strings@.len() as int));
    let blk = f.blocks@[b];
    let qi = g.blocks@[b].instrs@;
    assert(block_ok(blk, f, arities(p), p.strings@.len() as int));
    assert(block_reads_live(blk, lt, ls));
    if mp.steps >= ms {
    } else if k < blk.instrs@.len() {
        let ins = blk.instrs@[k];
        let m1p = crate::ir::tick(mp);
        let m1q = crate::ir::tick(mq);
        assert(instr_ok(ins, f.temps as int, f.slots as int, arities(p), p.strings@.len() as int));
        assert(instr_reads_live(ins, lt, ls));
        lemma_kept_skip(blk.instrs@, k, lt, ls);
        if droppable(ins, lt, ls) {
            lemma_step_droppable(p, ins, sp, tp, sq, tq, m1p.out, lt, ls, arities(p));
            if let Ok((s2, t2, o2)) = step_simple(p, ins, sp, tp, m1p.out) {
                lemma_dead_run(p, q, lt, ls, ms, md, fi, b, k + 1, kq, s2, t2, sq, tq, Machine { out: o2, ..m1p }, mq);
            }
        } else {
            assert(qi.skip(kq)[0] == ins);
            assert(qi.skip(kq).skip(1) =~= qi.skip(kq + 1));
            let rest = kept_instrs(blk.instrs@.skip(k + 1), lt, ls);
            assert((seq![ins] + rest).skip(1) =~= rest);
            assert(qi.skip(kq + 1) == rest);
            assert(qi[kq] == ins);
            match ins {
                Instr::Call { dst, func, args } => {
                    let argp = Seq::new(args@.len(), |j: int| val(args@[j], tp));
                    let argq = Seq::new(args@.len(), |j: int| val(args@[j], tq));
                    assert(argq =~= argp) by {
                        assert forall|j: int| 0 <= j < args@.len() implies argq[j] == argp[j] by {
                            assert(operand_live(args@[j], lt));
                            assert(operand_ok(args@[j], f.temps as int));
                            lemma_operand_agree(args@[j], tp, tq, lt);
                        }
                    }
                    assert(arities(p).len() == p.funcs@.len());
                    lemma_dead_call(p, q, ms, md, func as int, argp, m1p, m1q);
                    lemma_call_steps(q, ms, md, func as int, argp, m1q);
                    let (r, m2) = sem_call(p, ms, md, func as int, argp, m1p);
                    let (rq, m2q) = sem_call(q, ms, md, func as int, argp, m1q);
                    if r is Ok && m1p.steps <= m2.steps <= ms {
                        let t2 = match dst {
                            Some(d) => tp.update(d as int, r->Ok_0),
                            None => tp,
                        };
                        let t2q = match dst {
                            Some(d) => tq.update(d as int, r->Ok_0),
                            None => tq,
                        };
                        lemma_dead_run(p, q, lt, ls, ms, md, fi, b, k + 1, kq + 1, sp, t2, sq, t2q, m2, m2q);
                    }
                },
                _ => {
                    lemma_step_agree(p, q, ins, sp, tp, sq, tq, m1p.out, lt, ls, arities(p));
                    if let Ok((s2, t2, o2)) = step_simple(p, ins, sp, tp, m1p.out) {
                        let (s2q, t2q, o2q) = step_simple(q, ins, sq, tq, m1q.out)->Ok_0;
                        lemma_dead_run(
                            p,
                            q,
                            lt,
                            ls,
                            ms,
                            md,
                            fi,
                            b,
                            k + 1,
                            kq + 1,
                            s2,
                            t2,
                            s2q,
                            t2q,
                            Machine { out: o2, ..m1p },
                            Machine { out: o2q, ..m1q },
                        );
                    }
                },
            }
        }
    } else {
        assert(blk.instrs@.skip(k) =~= Seq::<Instr>::empty());
        assert(qi.skip(kq).len() == 0);
        let m1p = crate::ir::tick(mp);
        let m1q = crate::ir::tick(mq);
        assert(g.blocks@[b].term == blk.term);
        assert(term_reads_live(blk.term, lt));
        match blk.term {
            Term::Jmp(t) => {
                assert(f.blocks@[t as int].instrs@.skip(0) =~= f.blocks@[t as int].instrs@);
                assert(g.blocks@[t as int].instrs@.skip(0) =~= g.blocks@[t as int].instrs@);
                lemma_dead_run(p, q, lt, ls, ms, md, fi, t as int, 0, 0, sp, tp, sq, tq, m1p, m1q);
            },
            Term::Br { cond, t, f: fb } => {
                lemma_operand_agree(cond, tp, tq, lt);
                let target = if val(cond, tp) != 0 { t as int } else { fb as int };
                assert(f.blocks@[target].instrs@.skip(0) =~= f.blocks@[target].instrs@);
                assert(g.blocks@[target].instrs@.skip(0) =~= g.blocks@[target].instrs@);
                lemma_dead_run(p, q, lt, ls, ms, md, fi, target, 0, 0, sp, tp, sq, tq, m1p, m1q);
            },
            Term::Ret(Some(v)) => {
                lemma_operand_agree(v, tp, tq, lt);
            },
            _ => {},
        }
    }
}

proof fn lemma_dead_call(p: Program, q: Program, ms: int, md: int, fi: int, args: Seq<i64>, mp: Machine, mq: Machine)
    requires
        ir_wf(p),
        program_dead_dropped(p, q),
        0 <= fi < p.funcs@.len(),
        no_later(mq, mp),
        !runs_out(sem_call(p, ms, md, fi, args, mp).0),
    ensures
        ends_alike(sem_call(q, ms, md, fi, args, mq), sem_call(p, ms, md, fi, args, mp)),
    decreases ms - mp.steps, 1int,
{
    if mp.depth < md {
        let f = p.funcs@[fi];
        let (lt, ls) = choose|lt: Seq<bool>, ls: Seq<bool>| dead_dropped(f, q.funcs@[fi], lt, ls);
        assert(func_ok(f, arities(p), p.strings@.len() as int));
        let slots = Seq::new(f.slots as nat, |i: int| if i < args.len() { args[i] } else { 0i64 });
        let temps = Seq::new(f.temps as nat, |_i: int| 0i64);
        assert(f.blocks@[0].instrs@.skip(0) =~= f.blocks@[0].instrs@);
        assert(q.funcs@[fi].blocks@[0].instrs@.skip(0) =~= q.funcs@[fi].blocks@[0].instrs@);
        lemma_dead_run(
            p,
            q,
            lt,
            ls,
            ms,
            md,
            fi,
            0,
            0,
            0,
            slots,
            temps,
            slots,
            temps,
            Machine { depth: mp.depth + 1, ..mp },
            Machine { depth: mq.depth + 1, ..mq },
        );
    }
}

/// Taking out instructions that only write temps nobody reads, or slots
/// nobody loads, changes nothing a run shows unless the run runs out of
/// steps: a call ends with the same result and output, in no more steps.
pub proof fn lemma_dead_code_removal_keeps_meaning(p: Program, q: Program, ms: int, md: int, fi: int, args: Seq<i64>, m: Machine)
    requires
        ir_wf(p),
        program_dead_dropped(p, q),
        0 <= fi < p.funcs@.len(),
        !runs_out(sem_call(p, ms, md, fi, args, m).0),
    ensures
        ends_alike(sem_call(q, ms, md, fi, args, m), sem_call(p, ms, md, fi, args, m)),
{
    lemma_dead_call(p, q, ms, md, fi, args, m, m);
}

/// Every temp or slot marked live.
pub open spec fn all_live(n: nat) -> Seq<bool> {
    Seq::new(n, |_i: int| true)
}

/// A set of live marks that holds every mark of `a`.
pub open spec fn marks_grow(a: Seq<bool>, b: Seq<bool>) -> bool {
    &&& b.len() == a.len()
    &&& forall|i: int| 0 <= i < a.len() && a[i] ==> b[i]
}

/// A block that reads only live temps and slots still does when more are live.
pub(crate) proof fn lemma_reads_live_grow(blk: BasicBlock, lt: Seq<bool>, lt2: Seq<bool>, ls: Seq<bool>, ls2: Seq<bool>, temps: int, slots: int, ar: Seq<int>, n: int, nb: int)
    requires
        block_reads_live(blk, lt, ls),
        instrs_ok(blk.instrs@, temps, slots, ar, n),
        term_ok(blk.term, temps, nb),
        lt.len() == temps,
        ls.len() == slots,
        marks_grow(lt, lt2),
        marks_grow(ls, ls2),
    ensures
        block_reads_live(blk, lt2, ls2),
{
    assert forall|k: int| 0 <= k < blk.instrs@.len() implies instr_reads_live(#[trigger] blk.instrs@[k], lt2, ls2) by {
        assert(instr_ok(blk.instrs@[k], temps, slots, ar, n));
        assert(instr_reads_live(blk.instrs@[k], lt, ls));
        match blk.instrs@[k] {
            Instr::Call { args, .. } => {
                assert forall|j: int| 0 <= j < args@.len() implies operand_live(#[trigger] args@[j], lt2) by {
                    assert(operand_live(args@[j], lt));
                    assert(operand_ok(args@[j], temps));
                }
            },
            _ => {},
        }
    }
}

/// An instruction that reads only live temps and slots still does when more are live.
pub(crate) proof fn lemma_instr_reads_live_grow(ins: Instr, lt: Seq<bool>, lt2: Seq<bool>, ls: Seq<bool>, ls2: Seq<bool>, temps: int, slots: int, ar: Seq<int>, n: int)
    requires
        instr_reads_live(ins, lt, ls),
        instr_ok(ins, temps, slots, ar, n),
        lt.len() == temps,
        ls.len() == slots,
        marks_grow(lt, lt2),
        marks_grow(ls, ls2),
    ensures
        instr_reads_live(ins, lt2, ls2),
{
    match ins {
        Instr::Call { args, .. } => {
            assert forall|j: int| 0 <= j < args@.len() implies operand_live(#[trigger] args@[j], lt2) by {
                assert(operand_live(args@[j], lt));
                assert(operand_ok(args@[j], temps));
            }
        },
        _ => {},
    }
}

proof fn lemma_kept_push(s: Seq<Instr>, x: Instr, lt: Seq<bool>, ls: Seq<bool>)
    ensures
        kept_instrs(s.push(x), lt, ls) == kept_instrs(s, lt, ls) + if droppable(x, lt, ls) {
            Seq::<Instr>::empty()
        } else {
            seq![x]
        },
    decreases s.len(),
{
    let tail = if droppable(x, lt, ls) { Seq::<Instr>::empty() } else { seq![x] };
    if s.len() == 0 {
        assert(s.push(x).skip(1) =~= Seq::<Instr>::empty());
        assert(kept_instrs(Seq::<Instr>::empty(), lt, ls) == Seq::<Instr>::empty());
        assert(s.push(x)[0] == x);
        assert(kept_instrs(s.push(x), lt, ls) =~= Seq::<Instr>::empty() + tail);
    } else {
        assert(s.push(x).skip(1) =~= s.skip(1).push(x));
        assert(s.push(x)[0] == s[0]);
        lemma_kept_push(s.skip(1), x, lt, ls);
        let rest = kept_instrs(s.skip(1), lt, ls);
        if droppable(s[0], lt, ls) {
        } else {
            assert(seq![s[0]] + (rest + tail) =~= (seq![s[0]] + rest) + tail);
        }
    }
}

/// Keeping the instructions whose flag is set is taking out the droppable
/// ones, where the flags mark exactly those that are not droppable.
pub(crate) proof fn lemma_keep_where_kept(s: Seq<Instr>, flags: Seq<bool>, lt: Seq<bool>, ls: Seq<bool>)
    requires
        flags.len() == s.len(),
        forall|j: int| 0 <= j < s.len() ==> flags[j] == !droppable(#[trigger] s[j], lt, ls),
    ensures
        keep_where(s, flags) == kept_instrs(s, lt, ls),
    decreases s.len(),
{
    if s.len() == 0 {
    } else {
        let n = s.len() - 1;
        lemma_keep_where_kept(s.drop_last(), flags.take(n), lt, ls);
        lemma_kept_push(s.drop_last(), s.last(), lt, ls);
        assert(s.drop_last().push(s.last()) =~= s);
        assert(flags[n] == !droppable(s[n], lt, ls));
        if flags[n] {
            assert(keep_where(s.drop_last(), flags.take(n)).push(s.last()) =~= keep_where(s.drop_last(), flags.take(n)) + seq![s.last()]);
        } else {
            assert(keep_where(s.drop_last(), flags.take(n)) =~= keep_where(s.drop_last(), flags.take(n)) + Seq::<Instr>::empty());
        }
    }
}

/// Where block `x` of `f` jumps, when it is empty and just jumps.
pub open spec fn empty_jump(f: Func, x: int) -> Option<u32> {
    if f.blocks@[x].instrs@.len() == 0 {
        match f.blocks@[x].term {
            Term::Jmp(y) => Some(y),
            _ => None,
        }
    } else {
        None
    }
}

/// Where following `h` empty jumps from block `x` leads.
pub open spec fn follow(f: Func, x: int, h: nat) -> int
    decreases h,
{
    if h == 0 {
        x
    } else {
        match empty_jump(f, x) {
            Some(y) => follow(f, y as int, (h - 1) as nat),
            None => x,
        }
    }
}

/// One more empty jump from where `h` of them lead.
pub(crate) proof fn lemma_follow_step(f: Func, x: int, h: nat)
    requires
        empty_jump(f, follow(f, x, h)) is Some,
    ensures
        follow(f, x, h + 1) == empty_jump(f, follow(f, x, h))->0 as int,
    decreases h,
{
    if h > 0 {
        if let Some(y) = empty_jump(f, x) {
            lemma_follow_step(f, y as int, (h - 1) as nat);
            assert(follow(f, x, h + 1) == follow(f, y as int, h));
        }
    } else {
        let y = empty_jump(f, x)->0;
        assert(follow(f, y as int, 0) == y);
    }
}

/// Block `r` is reached from block `x` along empty blocks that just jump.
pub open spec fn skips_to(f: Func, x: int, r: int) -> bool {
    exists|h: nat|
        {
            &&& forall|j: nat| j < h ==> (#[trigger] empty_jump(f, follow(f, x, j))) is Some
            &&& follow(f, x, h) == r
        }
}

/// Terminator `b` is `a` with each target moved along empty jumps.
pub open spec fn term_threaded(f: Func, a: Term, b: Term) -> bool {
    match a {
        Term::Jmp(e) => match b {
            Term::Jmp(r) => skips_to(f, e as int, r as int),
            _ => false,
        },
        Term::Br { cond, t, f: fb } => match b {
            Term::Br { cond: c2, t: t2, f: f2 } => c2 == cond && skips_to(f, t as int, t2 as int) && skips_to(f, fb as int, f2 as int),
            _ => false,
        },
        _ => b == a,
    }
}

/// Block `qb` is block `pb` of `f` with its targets moved along empty jumps.
pub open spec fn block_threaded(f: Func, pb: BasicBlock, qb: BasicBlock) -> bool {
    &&& qb.instrs@ == pb.instrs@
    &&& term_threaded(f, pb.term, qb.term)
}

/// No block of `f` but the entry jumps or branches to block `t`.
pub open spec fn only_entry_enters(f: Func, t: int) -> bool {
    forall|j: int, k: int| 1 <= j < f.blocks@.len() && 0 <= k < succs(f.blocks@[j].term).len() ==> #[trigger] succs(f.blocks@[j].term)[k] != t
}

/// The entry of `f` is empty and just jumps to a block that no other block
/// enters: that block takes the entry's place.
pub open spec fn swaps_entry(f: Func) -> bool {
    match empty_jump(f, 0) {
        Some(t) => t != 0 && only_entry_enters(f, t as int),
        None => false,
    }
}

/// The block of `f` that the entry of the threaded function holds.
pub open spec fn entry_source(f: Func) -> int {
    if swaps_entry(f) {
        empty_jump(f, 0)->0 as int
    } else {
        0
    }
}

/// `g` is `f` after jump threading: its entry holds the block of `f` that
/// `entry_source` names, every other block but that one is the same block
/// of `f`, and each target has moved along empty jumps; a block whose
/// place the entry took is left empty, jumping to where the old entry led.
pub open spec fn jumps_threaded(f: Func, g: Func) -> bool {
    &&& same_header(f, g)
    &&& g.blocks@.len() == f.blocks@.len()
    &&& block_threaded(f, f.blocks@[entry_source(f)], g.blocks@[0])
    &&& forall|y: int| 1 <= y < f.blocks@.len() && y != entry_source(f) ==> block_threaded(f, #[trigger] f.blocks@[y], g.blocks@[y])
    &&& swaps_entry(f) ==> {
        &&& g.blocks@[entry_source(f)].instrs@.len() == 0
        &&& g.blocks@[entry_source(f)].term is Jmp
        &&& skips_to(f, entry_source(f), g.blocks@[entry_source(f)].term->Jmp_0 as int)
    }
}

/// `q` is `p` with the jumps of every function threaded.
pub open spec fn program_jumps_threaded(p: Program, q: Program) -> bool {
    &&& q.funcs@.len() == p.funcs@.len()
    &&& q.strings@ == p.strings@
    &&& q.main == p.main
    &&& forall|i: int| 0 <= i < p.funcs@.len() ==> jumps_threaded(#[trigger] p.funcs@[i], q.funcs@[i])
}

/// Running from an empty block that just jumps is running from where the
/// jumps lead, `h` steps later, unless the steps run out on the way.
proof fn lemma_follow_run(p: Program, ms: int, md: int, fi: int, x: int, h: nat, slots: Seq<i64>, temps: Seq<i64>, m: Machine)
    requires
        ir_wf(p),
        0 <= fi < p.funcs@.len(),
        0 <= x < p.funcs@[fi].blocks@.len(),
        forall|j: nat| j < h ==> (#[trigger] empty_jump(p.funcs@[fi], follow(p.funcs@[fi], x, j))) is Some,
        !runs_out(sem_run(p, ms, md, fi, x, 0, slots, temps, m).0),
    ensures
        sem_run(p, ms, md, fi, x, 0, slots, temps, m) == sem_run(
            p,
            ms,
            md,
            fi,
            follow(p.funcs@[fi], x, h),
            0,
            slots,
            temps,
            Machine { steps: m.steps + h, ..m },
        ),
        0 <= follow(p.funcs@[fi], x, h) < p.funcs@[fi].blocks@.len(),
    decreases h,
{
    let f = p.funcs@[fi];
    if h == 0 {
        assert(Machine { steps: m.steps + h, ..m } == m);
    } else {
        assert(empty_jump(f, follow(f, x, 0)) is Some);
        let y = empty_jump(f, x)->0 as int;
        assert(func_ok(f, arities(p), p.strings@.len() as int));
        assert(block_ok(f.blocks@[x], f, arities(p), p.strings@.len() as int));
        assert forall|j: nat| j < (h - 1) as nat implies (#[trigger] empty_jump(f, follow(f, y, j))) is Some by {
            assert(follow(f, x, j + 1) == follow(f, y, j));
            assert(empty_jump(f, follow(f, x, (j + 1) as nat)) is Some);
        }
        let m1 = crate::ir::tick(m);
        lemma_follow_run(p, ms, md, fi, y, (h - 1) as nat, slots, temps, m1);
        assert(Machine { steps: m1.steps + (h - 1), ..m1 } == Machine { steps: m.steps + h, ..m });
    }
}

/// Following empty jumps from a block other than the entry and `e0`, where
/// no such block enters the entry or `e0`, never reaches either.
proof fn lemma_follow_avoids(f: Func, x: int, h: nat, e0: int, ar: Seq<int>, nstr: int)
    requires
        func_ok(f, ar, nstr),
        1 <= x < f.blocks@.len(),
        x != e0,
        entry_never_entered(f),
        only_entry_enters(f, e0),
    ensures
        1 <= follow(f, x, h) < f.blocks@.len(),
        follow(f, x, h) != e0,
    decreases h,
{
    if h > 0 {
        if let Some(y) = empty_jump(f, x) {
            assert(block_ok(f.blocks@[x], f, ar, nstr));
            assert(succs(f.blocks@[x].term)[0] == y);
            lemma_follow_avoids(f, y as int, (h - 1) as nat, e0, ar, nstr);
        }
    }
}

/// Threading may move the entry only where nothing jumps back to it.
pub open spec fn threading_safe(p: Program) -> bool {
    forall|i: int| 0 <= i < p.funcs@.len() && swaps_entry(#[trigger] p.funcs@[i]) ==> entry_never_entered(p.funcs@[i])
}

/// A program none of whose functions jumps back to its entry, as every
/// compiled program is before and after optimizing, is safe to thread.
pub proof fn lemma_unentered_programs_thread_safely(p: Program)
    requires
        forall|i: int| 0 <= i < p.funcs@.len() ==> entry_never_entered(#[trigger] p.funcs@[i]),
    ensures
        threading_safe(p),
{
}

/// Moving to where a jump of block `bp` leads, in the function before and
/// after threading.
proof fn lemma_thread_edge(p: Program, q: Program, fi: int, bp: int, e: int, r: int)
    requires
        ir_wf(p),
        program_jumps_threaded(p, q),
        threading_safe(p),
        0 <= fi < p.funcs@.len(),
        0 <= bp < p.funcs@[fi].blocks@.len(),
        swaps_entry(p.funcs@[fi]) ==> bp >= 1,
        exists|k: int| 0 <= k < succs(p.funcs@[fi].blocks@[bp].term).len() && succs(p.funcs@[fi].blocks@[bp].term)[k] == e,
        skips_to(p.funcs@[fi], e, r),
    ensures
        0 <= r < p.funcs@[fi].blocks@.len(),
        block_threaded(p.funcs@[fi], p.funcs@[fi].blocks@[r], q.funcs@[fi].blocks@[r]),
        swaps_entry(p.funcs@[fi]) ==> r >= 1,
{
    let f = p.funcs@[fi];
    let g = q.funcs@[fi];
    assert(jumps_threaded(f, g));
    assert(func_ok(f, arities(p), p.strings@.len() as int));
    assert(block_ok(f.blocks@[bp], f, arities(p), p.strings@.len() as int));
    let h = choose|h: nat|
        {
            &&& forall|j: nat| j < h ==> (#[trigger] empty_jump(f, follow(f, e, j))) is Some
            &&& follow(f, e, h) == r
        };
    let k = choose|k: int| 0 <= k < succs(f.blocks@[bp].term).len() && succs(f.blocks@[bp].term)[k] == e;
    assert(0 <= e < f.blocks@.len());
    if swaps_entry(f) {
        assert(entry_never_entered(f));
        assert(succs(f.blocks@[bp].term)[k] != 0);
        assert(only_entry_enters(f, entry_source(f)));
        assert(succs(f.blocks@[bp].term)[k] != entry_source(f));
        lemma_follow_avoids(f, e, h, entry_source(f), arities(p), p.strings@.len() as int);
    } else {
        lemma_follow_in_range(f, e, h, arities(p), p.strings@.len() as int);
    }
}

proof fn lemma_follow_in_range(f: Func, x: int, h: nat, ar: Seq<int>, nstr: int)
    requires
        func_ok(f, ar, nstr),
        0 <= x < f.blocks@.len(),
    ensures
        0 <= follow(f, x, h) < f.blocks@.len(),
    decreases h,
{
    if h > 0 {
        if let Some(y) = empty_jump(f, x) {
            assert(block_ok(f.blocks@[x], f, ar, nstr));
            lemma_follow_in_range(f, y as int, (h - 1) as nat, ar, nstr);
        }
    }
}

#[verifier::rlimit(30)]
proof fn lemma_thread_run(
    p: Program,
    q: Program,
    ms: int,
    md: int,
    fi: int,
    bq: int,
    bp: int,
    k: int,
    slots: Seq<i64>,
    temps: Seq<i64>,
    mp: Machine,
    mq: Machine,
)
    requires
        ir_wf(p),
        program_jumps_threaded(p, q),
        threading_safe(p),
        0 <= fi < p.funcs@.len(),
        0 <= bp < p.funcs@[fi].blocks@.len(),
        0 <= bq < p.funcs@[fi].blocks@.len(),
        block_threaded(p.funcs@[fi], p.funcs@[fi].blocks@[bp], q.funcs@[fi].blocks@[bq]),
        swaps_entry(p.funcs@[fi]) ==> bp >= 1,
        0 <= k,
        no_later(mq, mp),
        !runs_out(sem_run(p, ms, md, fi, bp, k, slots, temps, mp).0),
    ensures
        ends_alike(sem_run(q, ms, md, fi, bq, k, slots, temps, mq), sem_run(p, ms, md, fi, bp, k, slots, temps, mp)),
    decreases ms - mp.steps, 0int,
{
    let f = p.funcs@[fi];
    let g = q.funcs@[fi];
    assert(func_ok(f, arities(p), p.strings@.len() as int));
    let blk = f.blocks@[bp];
    let qb = g.blocks@[bq];
    assert(block_ok(blk, f, arities(p), p.strings@.len() as int));
    if mp.steps >= ms {
    } else if k < blk.instrs@.len() {
        let ins = blk.instrs@[k];
        let m1p = crate::ir::tick(mp);
        let m1q = crate::ir::tick(mq);
        assert(qb.instrs@[k] == ins);
        assert(instr_ok(ins, f.temps as int, f.slots as int, arities(p), p.strings@.len() as int));
        match ins {
            Instr::Call { dst, func, args } => {
                let argv = Seq::new(args@.len(), |j: int| val(args@[j], temps));
                assert(arities(p).len() == p.funcs@.len());
                lemma_thread_call(p, q, ms, md, func as int, argv, m1p, m1q);
                lemma_call_steps(q, ms, md, func as int, argv, m1q);
                let (r, m2) = sem_call(p, ms, md, func as int, argv, m1p);
                let (rq, m2q) = sem_call(q, ms, md, func as int, argv, m1q);
                if r is Ok && m1p.steps <= m2.steps <= ms {
                    let t2 = match dst {
                        Some(d) => temps.update(d as int, r->Ok_0),
                        None => temps,
                    };
                    lemma_thread_run(p, q, ms, md, fi, bq, bp, k + 1, slots, t2, m2, m2q);
                }
            },
            _ => {
                assert(step_simple(q, ins, slots, temps, m1q.out) == step_simple(p, ins, slots, temps, m1p.out));
                if let Ok((s2, t2, o2)) = step_simple(p, ins, slots, temps, m1p.out) {
                    lemma_thread_run(p, q, ms, md, fi, bq, bp, k + 1, s2, t2, Machine { out: o2, ..m1p }, Machine { out: o2, ..m1q });
                }
            },
        }
    } else {
        let m1p = crate::ir::tick(mp);
        let m1q = crate::ir::tick(mq);
        match blk.term {
            Term::Jmp(e) => {
                let r = match qb.term {
                    Term::Jmp(r) => r as int,
                    _ => 0,
                };
                assert(succs(blk.term)[0] == e);
                lemma_thread_edge(p, q, fi, bp, e as int, r);
                let h = choose|h: nat|
                    {
                        &&& forall|j: nat| j < h ==> (#[trigger] empty_jump(f, follow(f, e as int, j))) is Some
                        &&& follow(f, e as int, h) == r
                    };
                lemma_follow_run(p, ms, md, fi, e as int, h, slots, temps, m1p);
                lemma_thread_run(p, q, ms, md, fi, r, r, 0, slots, temps, Machine { steps: m1p.steps + h, ..m1p }, m1q);
            },
            Term::Br { cond, t, f: fb } => {
                let (rt, rf) = match qb.term {
                    Term::Br { t: a, f: c, .. } => (a as int, c as int),
                    _ => (0, 0),
                };
                assert(succs(blk.term)[0] == t);
                assert(succs(blk.term)[1] == fb);
                let (e, r) = if val(cond, temps) != 0 { (t as int, rt) } else { (fb as int, rf) };
                lemma_thread_edge(p, q, fi, bp, e, r);
                let h = choose|h: nat|
                    {
                        &&& forall|j: nat| j < h ==> (#[trigger] empty_jump(f, follow(f, e, j))) is Some
                        &&& follow(f, e, h) == r
                    };
                lemma_follow_run(p, ms, md, fi, e, h, slots, temps, m1p);
                lemma_thread_run(p, q, ms, md, fi, r, r, 0, slots, temps, Machine { steps: m1p.steps + h, ..m1p }, m1q);
            },
            _ => {},
        }
    }
}

proof fn lemma_thread_call(p: Program, q: Program, ms: int, md: int, fi: int, args: Seq<i64>, mp: Machine, mq: Machine)
    requires
        ir_wf(p),
        program_jumps_threaded(p, q),
        threading_safe(p),
        0 <= fi < p.funcs@.len(),
        no_later(mq, mp),
        !runs_out(sem_call(p, ms, md, fi, args, mp).0),
    ensures
        ends_alike(sem_call(q, ms, md, fi, args, mq), sem_call(p, ms, md, fi, args, mp)),
    decreases ms - mp.steps, 1int,
{
    if mp.depth < md {
        let f = p.funcs@[fi];
        let g = q.funcs@[fi];
        assert(jumps_threaded(f, g));
        assert(func_ok(f, arities(p), p.strings@.len() as int));
        let slots = Seq::new(f.slots as nat, |i: int| if i < args.len() { args[i] } else { 0i64 });
        let temps = Seq::new(f.temps as nat, |_i: int| 0i64);
        let mp1 = Machine { depth: mp.depth + 1, ..mp };
        let mq1 = Machine { depth: mq.depth + 1, ..mq };
        if swaps_entry(f) {
            let e0 = entry_source(f);
            assert(block_ok(f.blocks@[0], f, arities(p), p.strings@.len() as int));
            if mp1.steps < ms {
                let mp2 = crate::ir::tick(mp1);
                assert(sem_run(p, ms, md, fi, 0, 0, slots, temps, mp1) == sem_run(p, ms, md, fi, e0, 0, slots, temps, mp2));
                lemma_thread_run(p, q, ms, md, fi, 0, e0, 0, slots, temps, mp2, mq1);
            }
        } else {
            lemma_thread_run(p, q, ms, md, fi, 0, 0, 0, slots, temps, mp1, mq1);
        }
    }
}

/// Threading jumps through empty blocks changes nothing a run shows unless
/// it runs out of steps, where no function whose entry it moves has a jump
/// back to its entry: a call ends with the same result and output, in no
/// more steps.
pub proof fn lemma_jump_threading_keeps_meaning(p: Program, q: Program, ms: int, md: int, fi: int, args: Seq<i64>, m: Machine)
    requires
        ir_wf(p),
        program_jumps_threaded(p, q),
        threading_safe(p),
        0 <= fi < p.funcs@.len(),
        !runs_out(sem_call(p, ms, md, fi, args, m).0),
    ensures
        ends_alike(sem_call(q, ms, md, fi, args, m), sem_call(p, ms, md, fi, args, m)),
{
    lemma_thread_call(p, q, ms, md, fi, args, m, m);
}

/// The instructions of the blocks of `c`, one block after another.
pub open spec fn flat(f: Func, c: Seq<int>) -> Seq<Instr>
    decreases c.len(),
{
    if c.len() == 0 {
        Seq::empty()
    } else {
        f.blocks@[c[0]].instrs@ + flat(f, c.skip(1))
    }
}

/// The blocks of `c` exist, and each but the last ends in a jump to the next.
pub open spec fn jump_chain(f: Func, c: Seq<int>) -> bool {
    &&& c.len() > 0
    &&& forall|i: int| 0 <= i < c.len() ==> 0 <= #[trigger] c[i] < f.blocks@.len()
    &&& forall|i: int| 0 <= i < c.len() - 1 ==> f.blocks@[#[trigger] c[i]].term == Term::Jmp(c[i + 1] as u32)
}

/// Block `y` of `g` is the chain `c` of blocks of `f`, which starts at `y`,
/// made into one block.
pub open spec fn chain_merged(f: Func, g: Func, y: int, c: Seq<int>) -> bool {
    &&& jump_chain(f, c)
    &&& c[0] == y
    &&& g.blocks@[y].instrs@ == flat(f, c)
    &&& g.blocks@[y].term == f.blocks@[c.last()].term
}

/// No block of `f` lies in two of the chains, or twice in one.
pub open spec fn chains_disjoint(chains: Seq<Option<Seq<int>>>) -> bool {
    forall|y1: int, i1: int, y2: int, i2: int|
        0 <= y1 < chains.len() && 0 <= y2 < chains.len() && chains[y1] is Some && chains[y2] is Some && 0 <= i1
            < chains[y1]->0.len() && 0 <= i2 < chains[y2]->0.len() && #[trigger] chains[y1]->0[i1] == #[trigger] chains[y2]->0[i2]
            ==> y1 == y2 && i1 == i2
}

/// `g` is `f` after block merging: each block that `chains` marks is the
/// chain of blocks of `f` it names made into one block, the chains share no
/// block, the entry is one of them, they jump and branch only to each
/// other, and the blocks not marked are empty and jump to themselves.
pub open spec fn blocks_merged(f: Func, g: Func, chains: Seq<Option<Seq<int>>>) -> bool {
    &&& same_header(f, g)
    &&& g.blocks@.len() == f.blocks@.len()
    &&& chains.len() == f.blocks@.len()
    &&& chains[0] is Some
    &&& forall|y: int| 0 <= y < chains.len() && (#[trigger] chains[y]) is Some ==> chain_merged(f, g, y, chains[y]->0)
    &&& forall|y: int|
        0 <= y < chains.len() && (#[trigger] chains[y]) is None ==> {
            &&& g.blocks@[y].instrs@.len() == 0
            &&& g.blocks@[y].term == Term::Jmp(y as u32)
            &&& y != 0
        }
    &&& chains_disjoint(chains)
    &&& forall|y: int, k: int|
        0 <= y < chains.len() && chains[y] is Some && 0 <= k < succs(g.blocks@[y].term).len() ==> {
            &&& 0 <= #[trigger] succs(g.blocks@[y].term)[k] < chains.len()
            &&& chains[succs(g.blocks@[y].term)[k] as int] is Some
        }
}

/// `q` is `p` with the blocks of every function merged.
pub open spec fn program_blocks_merged(p: Program, q: Program) -> bool {
    &&& q.funcs@.len() == p.funcs@.len()
    &&& q.strings@ == p.strings@
    &&& q.main == p.main
    &&& forall|i: int| 0 <= i < p.funcs@.len() ==> exists|chains: Seq<Option<Seq<int>>>| blocks_merged(#[trigger] p.funcs@[i], q.funcs@[i], chains)
}

proof fn lemma_flat_head(f: Func, c: Seq<int>)
    requires
        c.len() > 0,
    ensures
        flat(f, c) == f.blocks@[c[0]].instrs@ + flat(f, c.skip(1)),
{
}

#[verifier::rlimit(40)]
proof fn lemma_merge_run(
    p: Program,
    q: Program,
    chains: Seq<Option<Seq<int>>>,
    ms: int,
    md: int,
    fi: int,
    y: int,
    kq: int,
    c: Seq<int>,
    k: int,
    slots: Seq<i64>,
    temps: Seq<i64>,
    mp: Machine,
    mq: Machine,
)
    requires
        ir_wf(p),
        program_blocks_merged(p, q),
        0 <= fi < p.funcs@.len(),
        blocks_merged(p.funcs@[fi], q.funcs@[fi], chains),
        0 <= y < chains.len(),
        chains[y] is Some,
        jump_chain(p.funcs@[fi], c),
        0 <= k <= p.funcs@[fi].blocks@[c[0]].instrs@.len(),
        0 <= kq <= q.funcs@[fi].blocks@[y].instrs@.len(),
        q.funcs@[fi].blocks@[y].instrs@.skip(kq) == p.funcs@[fi].blocks@[c[0]].instrs@.skip(k) + flat(p.funcs@[fi], c.skip(1)),
        q.funcs@[fi].blocks@[y].term == p.funcs@[fi].blocks@[c.last()].term,
        no_later(mq, mp),
        !runs_out(sem_run(p, ms, md, fi, c[0], k, slots, temps, mp).0),
    ensures
        ends_alike(sem_run(q, ms, md, fi, y, kq, slots, temps, mq), sem_run(p, ms, md, fi, c[0], k, slots, temps, mp)),
    decreases ms - mp.steps, 0int,
{
    let f = p.funcs@[fi];
    let g = q.funcs@[fi];
    assert(func_ok(f, arities(p), p.strings@.len() as int));
    let bp = c[0];
    let blk = f.blocks@[bp];
    let qi = g.blocks@[y].instrs@;
    let rest = flat(f, c.skip(1));
    assert(block_ok(blk, f, arities(p), p.strings@.len() as int));
    if mp.steps >= ms {
    } else if k < blk.instrs@.len() {
        let ins = blk.instrs@[k];
        let m1p = crate::ir::tick(mp);
        let m1q = crate::ir::tick(mq);
        assert((blk.instrs@.skip(k) + rest)[0] == ins);
        assert(qi.skip(kq)[0] == ins);
        assert(qi[kq] == ins);
        assert(qi.skip(kq).skip(1) =~= qi.skip(kq + 1));
        assert((blk.instrs@.skip(k) + rest).skip(1) =~= blk.instrs@.skip(k + 1) + rest);
        assert(instr_ok(ins, f.temps as int, f.slots as int, arities(p), p.strings@.len() as int));
        match ins {
            Instr::Call { dst, func, args } => {
                let argv = Seq::new(args@.len(), |j: int| val(args@[j], temps));
                assert(arities(p).len() == p.funcs@.len());
                lemma_merge_call(p, q, ms, md, func as int, argv, m1p, m1q);
                lemma_call_steps(q, ms, md, func as int, argv, m1q);
                let (r, m2) = sem_call(p, ms, md, func as int, argv, m1p);
                let (rq, m2q) = sem_call(q, ms, md, func as int, argv, m1q);
                if r is Ok && m1p.steps <= m2.steps <= ms {
                    let t2 = match dst {
                        Some(d) => temps.update(d as int, r->Ok_0),
                        None => temps,
                    };
                    lemma_merge_run(p, q, chains, ms, md, fi, y, kq + 1, c, k + 1, slots, t2, m2, m2q);
                }
            },
            _ => {
                assert(step_simple(q, ins, slots, temps, m1q.out) == step_simple(p, ins, slots, temps, m1p.out));
                if let Ok((s2, t2, o2)) = step_simple(p, ins, slots, temps, m1p.out) {
                    lemma_merge_run(p, q, chains, ms, md, fi, y, kq + 1, c, k + 1, s2, t2, Machine { out: o2, ..m1p }, Machine { out: o2, ..m1q });
                }
            },
        }
    } else if c.len() > 1 {
        let m1p = crate::ir::tick(mp);
        let c2 = c.skip(1);
        assert(c2[0] == c[1]);
        assert(blk.term == Term::Jmp(c[1] as u32));
        assert(blk.instrs@.skip(k) =~= Seq::<Instr>::empty());
        assert(blk.instrs@.skip(k) + rest =~= rest);
        lemma_flat_head(f, c2);
        assert(f.blocks@[c2[0]].instrs@.skip(0) =~= f.blocks@[c2[0]].instrs@);
        assert(c2.last() == c.last());
        assert(jump_chain(f, c2)) by {
            assert forall|i: int| 0 <= i < c2.len() - 1 implies f.blocks@[#[trigger] c2[i]].term == Term::Jmp(c2[i + 1] as u32) by {
                assert(c2[i] == c[i + 1]);
                assert(c2[i + 1] == c[i + 2]);
            }
            assert forall|i: int| 0 <= i < c2.len() implies 0 <= #[trigger] c2[i] < f.blocks@.len() by {
                assert(c2[i] == c[i + 1]);
            }
        }
        lemma_merge_run(p, q, chains, ms, md, fi, y, kq, c2, 0, slots, temps, m1p, mq);
    } else {
        assert(blk.instrs@.skip(k) =~= Seq::<Instr>::empty());
        assert(c.skip(1) =~= Seq::<int>::empty());
        assert(qi.skip(kq).len() == 0);
        assert(c.last() == bp);
        let m1p = crate::ir::tick(mp);
        let m1q = crate::ir::tick(mq);
        match blk.term {
            Term::Jmp(z) => {
                assert(succs(g.blocks@[y].term)[0] == z);
                let cz = chains[z as int]->0;
                assert(chain_merged(f, g, z as int, cz));
                lemma_flat_head(f, cz);
                assert(f.blocks@[z as int].instrs@.skip(0) =~= f.blocks@[z as int].instrs@);
                assert(g.blocks@[z as int].instrs@.skip(0) =~= g.blocks@[z as int].instrs@);
                lemma_merge_run(p, q, chains, ms, md, fi, z as int, 0, cz, 0, slots, temps, m1p, m1q);
            },
            Term::Br { cond, t, f: fb } => {
                assert(succs(g.blocks@[y].term)[0] == t);
                assert(succs(g.blocks@[y].term)[1] == fb);
                let z = if val(cond, temps) != 0 { t as int } else { fb as int };
                let cz = chains[z]->0;
                assert(chain_merged(f, g, z, cz));
                lemma_flat_head(f, cz);
                assert(f.blocks@[z].instrs@.skip(0) =~= f.blocks@[z].instrs@);
                assert(g.blocks@[z].instrs@.skip(0) =~= g.blocks@[z].instrs@);
                lemma_merge_run(p, q, chains, ms, md, fi, z, 0, cz, 0, slots, temps, m1p, m1q);
            },
            _ => {},
        }
    }
}

proof fn lemma_merge_call(p: Program, q: Program, ms: int, md: int, fi: int, args: Seq<i64>, mp: Machine, mq: Machine)
    requires
        ir_wf(p),
        program_blocks_merged(p, q),
        0 <= fi < p.funcs@.len(),
        no_later(mq, mp),
        !runs_out(sem_call(p, ms, md, fi, args, mp).0),
    ensures
        ends_alike(sem_call(q, ms, md, fi, args, mq), sem_call(p, ms, md, fi, args, mp)),
    decreases ms - mp.steps, 1int,
{
    if mp.depth < md {
        let f = p.funcs@[fi];
        let g = q.funcs@[fi];
        let chains = choose|chains: Seq<Option<Seq<int>>>| blocks_merged(f, g, chains);
        assert(func_ok(f, arities(p), p.strings@.len() as int));
        let slots = Seq::new(f.slots as nat, |i: int| if i < args.len() { args[i] } else { 0i64 });
        let temps = Seq::new(f.temps as nat, |_i: int| 0i64);
        let c0 = chains[0]->0;
        assert(chain_merged(f, g, 0, c0));
        lemma_flat_head(f, c0);
        assert(f.blocks@[0].instrs@.skip(0) =~= f.blocks@[0].instrs@);
        assert(g.blocks@[0].instrs@.skip(0) =~= g.blocks@[0].instrs@);
        lemma_merge_run(
            p,
            q,
            chains,
            ms,
            md,
            fi,
            0,
            0,
            c0,
            0,
            slots,
            temps,
            Machine { depth: mp.depth + 1, ..mp },
            Machine { depth: mq.depth + 1, ..mq },
        );
    }
}

/// Merging a block into the one block that jumps to it changes nothing a
/// run shows unless it runs out of steps: a call ends with the same result
/// and output, in no more steps.
pub proof fn lemma_block_merging_keeps_meaning(p: Program, q: Program, ms: int, md: int, fi: int, args: Seq<i64>, m: Machine)
    requires
        ir_wf(p),
        program_blocks_merged(p, q),
        0 <= fi < p.funcs@.len(),
        !runs_out(sem_call(p, ms, md, fi, args, m).0),
    ensures
        ends_alike(sem_call(q, ms, md, fi, args, m), sem_call(p, ms, md, fi, args, m)),
{
    lemma_merge_call(p, q, ms, md, fi, args, m, m);
}

/// How many entries of `s` are `z`.
pub open spec fn occurrences(s: Seq<u32>, z: int) -> nat
    decreases s.len(),
{
    if s.len() == 0 {
        0
    } else {
        occurrences(s.drop_last(), z) + if s.last() == z { 1nat } else { 0nat }
    }
}

/// The jumps and branches to block `z` from the block `b`, counted where
/// `c` marks it as a merged block.
pub open spec fn edges_from(b: BasicBlock, c: Option<Seq<int>>, z: int) -> nat {
    if c is Some {
        occurrences(succs(b.term), z)
    } else {
        0
    }
}

/// The jumps and branches to block `z` from the first `n` blocks that
/// `chains` marks.
pub open spec fn edges_into(bs: Seq<BasicBlock>, chains: Seq<Option<Seq<int>>>, z: int, n: int) -> nat
    decreases n,
{
    if n <= 0 {
        0
    } else {
        edges_into(bs, chains, z, n - 1) + edges_from(bs[n - 1], chains[n - 1], z)
    }
}

/// A value that occurs nowhere is at no position.
pub(crate) proof fn lemma_occurrences_zero(s: Seq<u32>, z: int)
    requires
        occurrences(s, z) == 0,
    ensures
        forall|k: int| 0 <= k < s.len() ==> s[k] != z,
    decreases s.len(),
{
    if s.len() > 0 {
        lemma_occurrences_zero(s.drop_last(), z);
        assert forall|k: int| 0 <= k < s.len() implies s[k] != z by {
            if k < s.len() - 1 {
                assert(s.drop_last()[k] == s[k]);
            }
        }
    }
}

/// How often a terminator goes to block `z`.
pub(crate) proof fn lemma_occurrences_terms(t: Term, z: int)
    ensures
        t is Jmp ==> occurrences(succs(t), z) == if t->Jmp_0 as int == z { 1nat } else { 0nat },
        t is Br ==> occurrences(succs(t), z) == (if t->Br_t as int == z { 1nat } else { 0nat }) + (if t->Br_f as int == z {
            1nat
        } else {
            0nat
        }),
        !(t is Jmp) && !(t is Br) ==> occurrences(succs(t), z) == 0,
{
    let s = succs(t);
    match t {
        Term::Jmp(x) => {
            assert(s =~= seq![x]);
            assert(s.drop_last() =~= Seq::<u32>::empty());
            assert(occurrences(s.drop_last(), z) == 0);
            assert(s.last() == x);
        },
        Term::Br { t: x, f: y, .. } => {
            assert(s =~= seq![x, y]);
            assert(s.drop_last() =~= seq![x]);
            assert(s.drop_last().drop_last() =~= Seq::<u32>::empty());
            assert(occurrences(s.drop_last().drop_last(), z) == 0);
            assert(s.drop_last().last() == x);
            assert(s.last() == y);
            let d = s.drop_last();
            assert(occurrences(d, z) == occurrences(d.drop_last(), z) + if d.last() == z { 1nat } else { 0nat });
            assert(occurrences(s, z) == occurrences(d, z) + if s.last() == z { 1nat } else { 0nat });
        },
        _ => {},
    }
}

/// Changing one block changes the count of edges by what it adds and takes away.
pub(crate) proof fn lemma_edges_update(
    bs: Seq<BasicBlock>,
    chains: Seq<Option<Seq<int>>>,
    i: int,
    x: BasicBlock,
    ci: Option<Seq<int>>,
    z: int,
    n: int,
)
    requires
        0 <= i < n <= bs.len(),
        n <= chains.len(),
    ensures
        edges_into(bs.update(i, x), chains.update(i, ci), z, n) + edges_from(bs[i], chains[i], z) == edges_into(bs, chains, z, n)
            + edges_from(x, ci, z),
    decreases n,
{
    if n - 1 > i {
        lemma_edges_update(bs, chains, i, x, ci, z, n - 1);
    } else {
        lemma_edges_same(bs, chains, bs.update(i, x), chains.update(i, ci), z, i);
    }
}

proof fn lemma_edges_same(bs: Seq<BasicBlock>, chains: Seq<Option<Seq<int>>>, bs2: Seq<BasicBlock>, chains2: Seq<Option<Seq<int>>>, z: int, n: int)
    requires
        0 <= n <= bs.len(),
        n <= bs2.len(),
        n <= chains.len(),
        n <= chains2.len(),
        forall|y: int| 0 <= y < n ==> bs2[y] == bs[y] && chains2[y] == chains[y],
    ensures
        edges_into(bs2, chains2, z, n) == edges_into(bs, chains, z, n),
    decreases n,
{
    if n > 0 {
        lemma_edges_same(bs, chains, bs2, chains2, z, n - 1);
    }
}

/// The edges of two blocks are among all the edges.
pub(crate) proof fn lemma_edges_two(bs: Seq<BasicBlock>, chains: Seq<Option<Seq<int>>>, a: int, t: int, z: int, n: int)
    requires
        0 <= a < n,
        0 <= t < n,
        a != t,
    ensures
        edges_into(bs, chains, z, n) >= edges_from(bs[a], chains[a], z) + edges_from(bs[t], chains[t], z),
    decreases n,
{
    if n - 1 != a && n - 1 != t {
        lemma_edges_two(bs, chains, a, t, z, n - 1);
    } else if n - 1 == a {
        lemma_edges_one(bs, chains, t, z, n - 1);
    } else {
        lemma_edges_one(bs, chains, a, z, n - 1);
    }
}

/// The edges of one block are among all the edges.
pub(crate) proof fn lemma_edges_one(bs: Seq<BasicBlock>, chains: Seq<Option<Seq<int>>>, a: int, z: int, n: int)
    requires
        0 <= a < n,
    ensures
        edges_into(bs, chains, z, n) >= edges_from(bs[a], chains[a], z),
    decreases n,
{
    if n - 1 != a {
        lemma_edges_one(bs, chains, a, z, n - 1);
    }
}

/// Merging two chains one after the other merges their instructions in turn.
pub(crate) proof fn lemma_flat_concat(f: Func, a: Seq<int>, b: Seq<int>)
    ensures
        flat(f, a + b) == flat(f, a) + flat(f, b),
    decreases a.len(),
{
    if a.len() == 0 {
        assert(a + b =~= b);
        assert(flat(f, a) + flat(f, b) =~= flat(f, b));
    } else {
        assert((a + b).skip(1) =~= a.skip(1) + b);
        assert((a + b)[0] == a[0]);
        lemma_flat_concat(f, a.skip(1), b);
        let h = f.blocks@[a[0]].instrs@;
        assert(h + (flat(f, a.skip(1)) + flat(f, b)) =~= (h + flat(f, a.skip(1))) + flat(f, b));
    }
}

/// A chain of one block holds that block's instructions.
pub(crate) proof fn lemma_flat_one(f: Func, y: int)
    ensures
        flat(f, seq![y]) == f.blocks@[y].instrs@,
{
    assert(seq![y].skip(1) =~= Seq::<int>::empty());
    assert(flat(f, Seq::<int>::empty()) == Seq::<Instr>::empty());
    assert(seq![y][0] == y);
    assert(f.blocks@[y].instrs@ + Seq::<Instr>::empty() =~= f.blocks@[y].instrs@);
}

} // verus!
