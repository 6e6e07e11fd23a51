//! The IR interpreter, and the meaning of an IR program it computes: a
//! small-step semantics over slots, temps and the output written so far,
//! with a step limit and a call-depth limit.

use vstd::prelude::*;

use crate::ir::{Instr, Operand, Program, Term, Trap, eval, ir_wf, func_ok, instr_ok, operand_ok, spec_eval, term_ok, arities};
use crate::text::{ascii_bytes, int_text, push_int_bytes};

verus! {

/// What a run has done so far: the bytes written, the steps taken and the
/// current call depth.
pub struct Machine {
    pub out: Seq<u8>,
    pub steps: int,
    pub depth: int,
}

pub open spec fn val(o: Operand, temps: Seq<i64>) -> i64 {
    match o {
        Operand::Temp(t) => temps[t as int],
        Operand::Const(c) => c,
    }
}

pub open spec fn bool_text(b: bool) -> Seq<char> {
    if b {
        seq!['t', 'r', 'u', 'e']
    } else {
        seq!['f', 'a', 'l', 's', 'e']
    }
}

/// The effect of an instruction other than a call on slots, temps and the
/// output, or the trap it raises.
pub open spec fn step_simple(p: Program, ins: Instr, slots: Seq<i64>, temps: Seq<i64>, out: Seq<u8>) -> Result<(Seq<i64>, Seq<i64>, Seq<u8>), Trap> {
    match ins {
        Instr::Load { dst, slot } => Ok((slots, temps.update(dst as int, slots[slot as int]), out)),
        Instr::Store { slot, src } => Ok((slots.update(slot as int, val(src, temps)), temps, out)),
        Instr::Bin { dst, op, a, b } => match spec_eval(op, val(a, temps), val(b, temps)) {
            Ok(v) => Ok((slots, temps.update(dst as int, v), out)),
            Err(t) => Err(t),
        },
        Instr::Neg { dst, a } => if val(a, temps) == i64::MIN {
            Err(Trap::Overflow)
        } else {
            Ok((slots, temps.update(dst as int, (-val(a, temps)) as i64), out))
        },
        Instr::Not { dst, a } => Ok((slots, temps.update(dst as int, if val(a, temps) == 0 { 1i64 } else { 0i64 }), out)),
        Instr::PrintInt(v) => Ok((slots, temps, out + ascii_bytes(int_text(val(v, temps) as int)) + seq![10u8])),
        Instr::PrintBool(v) => Ok((slots, temps, out + ascii_bytes(bool_text(val(v, temps) != 0)) + seq![10u8])),
        Instr::PrintStr(i) => Ok((slots, temps, out + vstd::utf8::encode_utf8(p.strings@[i as int]@) + seq![10u8])),
        Instr::Call { .. } => Err(Trap::Io),
    }
}

/// The machine after one more step.
pub open spec fn tick(m: Machine) -> Machine {
    Machine { steps: m.steps + 1, ..m }
}

/// Runs function `fi` from instruction `k` of block `b` with the given
/// slots and temps: its return value or trap, and the machine after.
/// Every instruction and every terminator is a step; a step beyond
/// `max_steps` traps, as does a call deeper than `max_depth`.
pub open spec fn sem_run(
    p: Program,
    max_steps: int,
    max_depth: int,
    fi: int,
    b: int,
    k: int,
    slots: Seq<i64>,
    temps: Seq<i64>,
    m: Machine,
) -> (Result<i64, Trap>, Machine)
    decreases max_steps - m.steps, 0int,
{
    let blk = p.funcs@[fi].blocks@[b];
    if m.steps >= max_steps {
        (Err(Trap::StepLimit), m)
    } else if 0 <= k < blk.instrs@.len() {
        let m1 = tick(m);
        match blk.instrs@[k] {
            Instr::Call { dst, func, args } => {
                let argv = Seq::new(args@.len(), |j: int| val(args@[j], temps));
                let (r, m2) = sem_call(p, max_steps, max_depth, func as int, argv, m1);
                match r {
                    Err(t) => (Err(t), m2),
                    Ok(v) => if m1.steps <= m2.steps <= max_steps {
                        let t2 = match dst {
                            Some(d) => temps.update(d as int, v),
                            None => temps,
                        };
                        sem_run(p, max_steps, max_depth, fi, b, k + 1, slots, t2, m2)
                    } else {
                        (Err(Trap::StepLimit), m2)
                    },
                }
            },
            ins => match step_simple(p, ins, slots, temps, m1.out) {
                Err(t) => (Err(t), m1),
                Ok((s2, t2, o2)) => sem_run(p, max_steps, max_depth, fi, b, k + 1, s2, t2, Machine { out: o2, ..m1 }),
            },
        }
    } else {
        let m1 = tick(m);
        match blk.term {
            Term::Jmp(t) => sem_run(p, max_steps, max_depth, fi, t as int, 0, slots, temps, m1),
            Term::Br { cond, t, f } => sem_run(
                p,
                max_steps,
                max_depth,
                fi,
                if val(cond, temps) != 0 { t as int } else { f as int },
                0,
                slots,
                temps,
                m1,
            ),
            Term::Ret(v) => (
                Ok(
                    match v {
                        Some(o) => val(o, temps),
                        None => 0,
                    },
                ),
                m1,
            ),
            Term::Unset => (Err(Trap::Io), m1),
        }
    }
}

/// Calls function `fi` with the given arguments: its return value or
/// trap, and the machine after.
pub open spec fn sem_call(p: Program, max_steps: int, max_depth: int, fi: int, args: Seq<i64>, m: Machine) -> (Result<i64, Trap>, Machine)
    decreases max_steps - m.steps, 1int,
{
    if m.depth >= max_depth {
        (Err(Trap::StackOverflow), m)
    } else {
        let f = p.funcs@[fi];
        let slots = Seq::new(f.slots as nat, |i: int| if i < args.len() { args[i] } else { 0i64 });
        let temps = Seq::new(f.temps as nat, |_i: int| 0i64);
        let (r, m2) = sem_run(p, max_steps, max_depth, fi, 0, 0, slots, temps, Machine { depth: m.depth + 1, ..m });
        match r {
            Ok(v) => (Ok(v), Machine { depth: m2.depth - 1, ..m2 }),
            Err(t) => (Err(t), m2),
        }
    }
}

/// An interpreter for an IR program, writing what it prints to `out`.
pub struct Interp<'a> {
    prog: &'a Program,
    out: &'a mut Vec<u8>,
    depth: usize,
    pub max_depth: usize,
    /// Abort with `Trap::StepLimit` after this many steps.
    pub max_steps: u64,
    /// Steps taken: instructions and terminators executed.
    pub steps: u64,
}

impl<'a> Interp<'a> {
    /// The program being run.
    pub closed spec fn program(&self) -> Program {
        *self.prog
    }

    /// The output written so far.
    pub closed spec fn output(&self) -> Seq<u8> {
        self.out@
    }

    /// The state of the run: output, steps and depth.
    pub closed spec fn machine(&self) -> Machine {
        Machine { out: self.out@, steps: self.steps as int, depth: self.depth as int }
    }

    /// The step limit and the call-depth limit.
    pub closed spec fn limits(&self) -> (int, int) {
        (self.max_steps as int, self.max_depth as int)
    }

    pub fn new(prog: &'a Program, out: &'a mut Vec<u8>) -> (i: Interp<'a>)
        ensures
            i.program() == *prog,
            i.output() == old(out)@,
            i.machine() == (Machine { out: old(out)@, steps: 0, depth: 0 }),
            i.limits() == (u64::MAX as int, 100_000int),
    {
        Interp { prog, out, depth: 0, max_depth: 100_000, max_steps: u64::MAX, steps: 0 }
    }

    /// Runs `main` to completion: its result, with what it printed appended
    /// to the output and the steps counted, as `sem_call` describes.
    pub fn run(&mut self) -> (r: Result<(), Trap>)
        requires
            ir_wf(old(self).program()),
        ensures
            final(self).program() == old(self).program(),
            final(self).limits() == old(self).limits(),
            ({
                let (res, m) = sem_call(
                    old(self).program(),
                    old(self).limits().0,
                    old(self).limits().1,
                    old(self).program().main as int,
                    Seq::empty(),
                    old(self).machine(),
                );
                &&& final(self).machine().out == m.out
                &&& final(self).machine().steps == m.steps
                &&& (r is Ok <==> res is Ok)
                &&& (r matches Err(t) ==> res == Err::<i64, Trap>(t))
            }),
    {
        let args: Vec<i64> = Vec::new();
        let main = self.prog.main;
        proof {
            assert(func_ok(self.prog.funcs@[main as int], arities(*self.prog), self.prog.strings@.len() as int));
            assert(args@ =~= Seq::<i64>::empty());
        }
        match self.call(main, &args) {
            Ok(_) => Ok(()),
            Err(t) => Err(t),
        }
    }

    fn call(&mut self, fi: usize, args: &Vec<i64>) -> (r: Result<i64, Trap>)
        requires
            ir_wf(*old(self).prog),
            fi < old(self).prog.funcs@.len(),
            args@.len() <= old(self).prog.funcs@[fi as int].params,
        ensures
            final(self).prog == old(self).prog,
            final(self).max_steps == old(self).max_steps,
            final(self).max_depth == old(self).max_depth,
            r is Ok ==> final(self).depth == old(self).depth,
            old(self).steps <= final(self).steps,
            old(self).steps <= old(self).max_steps ==> final(self).steps <= old(self).max_steps,
            (r, final(self).machine()) == sem_call(
                *old(self).prog,
                old(self).max_steps as int,
                old(self).max_depth as int,
                fi as int,
                args@,
                old(self).machine(),
            ),
        decreases old(self).max_steps - old(self).steps,
    {
        if self.depth >= self.max_depth {
            return Err(Trap::StackOverflow);
        }
        self.depth = self.depth + 1;
        let prog = self.prog;
        let f = &prog.funcs[fi];
        let ghost ar = arities(*prog);
        let ghost nstr = prog.strings@.len() as int;
        proof {
            assert(func_ok(prog.funcs@[fi as int], ar, nstr));
        }
        let mut slots: Vec<i64> = Vec::new();
        let mut i: usize = 0;
        while i < f.slots as usize
            invariant
                i <= f.slots,
                args@.len() <= f.params <= f.slots,
                slots@ =~= Seq::new(i as nat, |j: int| if j < args@.len() { args@[j] } else { 0i64 }),
            decreases f.slots - i,
        {
            if i < args.len() {
                slots.push(args[i]);
            } else {
                slots.push(0);
            }
            i = i + 1;
        }
        let mut temps: Vec<i64> = Vec::new();
        let mut i: usize = 0;
        while i < f.temps as usize
            invariant
                i <= f.temps,
                temps@ =~= Seq::new(i as nat, |_j: int| 0i64),
            decreases f.temps - i,
        {
            temps.push(0);
            i = i + 1;
        }
        let ghost ms = self.max_steps as int;
        let ghost md = self.max_depth as int;
        let ghost target = sem_run(*prog, ms, md, fi as int, 0, 0, slots@, temps@, self.machine());
        let mut b: usize = 0;
        loop
            invariant
                prog == self.prog,
                prog == old(self).prog,
                ir_wf(*prog),
                fi < prog.funcs@.len(),
                *f == prog.funcs@[fi as int],
                ar == arities(*prog),
                nstr == prog.strings@.len(),
                func_ok(*f, ar, nstr),
                ms == self.max_steps,
                md == self.max_depth,
                self.max_steps == old(self).max_steps,
                self.max_depth == old(self).max_depth,
                b < f.blocks@.len(),
                slots@.len() == f.slots,
                temps@.len() == f.temps,
                old(self).steps <= self.steps,
                old(self).steps <= old(self).max_steps ==> self.steps <= old(self).max_steps,
                self.depth == old(self).depth + 1,
                sem_run(*prog, ms, md, fi as int, b as int, 0, slots@, temps@, self.machine()) == target,
                sem_call(*prog, ms, md, fi as int, args@, old(self).machine()) == (match target.0 {
                    Ok(v) => (Ok(v), Machine { depth: target.1.depth - 1, ..target.1 }),
                    Err(t) => (Err(t), target.1),
                }),
            decreases self.max_steps - self.steps,
        {
            let ghost s0 = self.steps;
            let blk = &f.blocks[b];
            assert(crate::ir::block_ok(*blk, *f, ar, nstr));
            let mut k: usize = 0;
            while k < blk.instrs.len()
                invariant
                    prog == self.prog,
                    prog == old(self).prog,
                    ir_wf(*prog),
                    fi < prog.funcs@.len(),
                    *f == prog.funcs@[fi as int],
                    ar == arities(*prog),
                    nstr == prog.strings@.len(),
                    func_ok(*f, ar, nstr),
                    ms == self.max_steps,
                    md == self.max_depth,
                    self.max_steps == old(self).max_steps,
                    self.max_depth == old(self).max_depth,
                    b < f.blocks@.len(),
                    *blk == f.blocks@[b as int],
                    crate::ir::block_ok(*blk, *f, ar, nstr),
                    k <= blk.instrs@.len(),
                    slots@.len() == f.slots,
                    temps@.len() == f.temps,
                    old(self).steps <= self.steps,
                    old(self).steps <= old(self).max_steps ==> self.steps <= old(self).max_steps,
                    self.depth == old(self).depth + 1,
                    sem_run(*prog, ms, md, fi as int, b as int, k as int, slots@, temps@, self.machine()) == target,
                    sem_call(*prog, ms, md, fi as int, args@, old(self).machine()) == (match target.0 {
                        Ok(v) => (Ok(v), Machine { depth: target.1.depth - 1, ..target.1 }),
                        Err(t) => (Err(t), target.1),
                    }),
                    s0 <= self.steps,
                decreases blk.instrs@.len() - k,
            {
                if self.steps >= self.max_steps {
                    return Err(Trap::StepLimit);
                }
                self.steps = self.steps + 1;
                let ins = &blk.instrs[k];
                assert(instr_ok(*ins, f.temps as int, f.slots as int, ar, nstr));
                match ins {
                    Instr::Call { dst, func, args: a } => {
                        let mut argv: Vec<i64> = Vec::new();
                        let mut j: usize = 0;
                        while j < a.len()
                            invariant
                                j <= a@.len(),
                                temps@.len() == f.temps,
                                forall|q: int| 0 <= q < a@.len() ==> operand_ok(#[trigger] a@[q], f.temps as int),
                                argv@ =~= Seq::new(j as nat, |q: int| val(a@[q], temps@)),
                            decreases a@.len() - j,
                        {
                            argv.push(value(a[j], &temps));
                            j = j + 1;
                        }
                        proof {
                            assert(ar[*func as int] == prog.funcs@[*func as int].params);
                        }
                        match self.call(*func, &argv) {
                            Err(t) => {
                                return Err(t);
                            },
                            Ok(v) => {
                                match dst {
                                    Some(d) => temps.set(*d as usize, v),
                                    None => {},
                                }
                            },
                        }
                    },
                    _ => {
                        match self.step(ins, &mut slots, &mut temps) {
                            Err(t) => {
                                return Err(t);
                            },
                            Ok(()) => {},
                        }
                    },
                }
                k = k + 1;
            }
            if self.steps >= self.max_steps {
                return Err(Trap::StepLimit);
            }
            self.steps = self.steps + 1;
            match blk.term {
                Term::Jmp(t) => {
                    b = t as usize;
                },
                Term::Br { cond, t, f: fb } => {
                    b = if value(cond, &temps) != 0 { t as usize } else { fb as usize };
                },
                Term::Ret(v) => {
                    let r = match v {
                        Some(o) => value(o, &temps),
                        None => 0,
                    };
                    self.depth = self.depth - 1;
                    return Ok(r);
                },
                Term::Unset => {
                    return Err(Trap::Io);
                },
            }
        }
    }

    /// Executes an instruction other than a call.
    fn step(&mut self, ins: &Instr, slots: &mut Vec<i64>, temps: &mut Vec<i64>) -> (r: Result<(), Trap>)
        requires
            !(ins is Call),
            instr_ok(*ins, old(temps)@.len() as int, old(slots)@.len() as int, arities(*old(self).prog), old(self).prog.strings@.len() as int),
        ensures
            final(self).prog == old(self).prog,
            final(self).max_steps == old(self).max_steps,
            final(self).max_depth == old(self).max_depth,
            final(self).steps == old(self).steps,
            final(self).depth == old(self).depth,
            match step_simple(*old(self).prog, *ins, old(slots)@, old(temps)@, old(self).out@) {
                Ok((s2, t2, o2)) => r is Ok && final(slots)@ == s2 && final(temps)@ == t2 && final(self).out@ == o2,
                Err(t) => r == Err::<(), Trap>(t) && final(self).out@ == old(self).out@,
            },
    {
        match ins {
            Instr::Load { dst, slot } => {
                let v = slots[*slot as usize];
                temps.set(*dst as usize, v);
            },
            Instr::Store { slot, src } => {
                let v = value(*src, temps);
                slots.set(*slot as usize, v);
            },
            Instr::Bin { dst, op, a, b } => {
                let x = value(*a, temps);
                let y = value(*b, temps);
                match eval(*op, x, y) {
                    Ok(v) => temps.set(*dst as usize, v),
                    Err(t) => {
                        return Err(t);
                    },
                }
            },
            Instr::Neg { dst, a } => {
                let x = value(*a, temps);
                if x == i64::MIN {
                    return Err(Trap::Overflow);
                }
                temps.set(*dst as usize, -x);
            },
            Instr::Not { dst, a } => {
                let x = value(*a, temps);
                temps.set(*dst as usize, if x == 0 { 1 } else { 0 });
            },
            Instr::PrintInt(v) => {
                let x = value(*v, temps);
                push_int_bytes(self.out, x);
                self.out.push(10u8);
            },
            Instr::PrintBool(v) => {
                let x = value(*v, temps);
                let ghost o = self.out@;
                if x != 0 {
                    self.out.push(116u8);
                    self.out.push(114u8);
                    self.out.push(117u8);
                    self.out.push(101u8);
                } else {
                    self.out.push(102u8);
                    self.out.push(97u8);
                    self.out.push(108u8);
                    self.out.push(115u8);
                    self.out.push(101u8);
                }
                self.out.push(10u8);
                proof {
                    assert(self.out@ =~= o + ascii_bytes(bool_text(x != 0)) + seq![10u8]);
                }
            },
            Instr::PrintStr(i) => {
                let bytes = self.prog.strings[*i].as_str().as_bytes();
                let ghost o = self.out@;
                let mut j: usize = 0;
                while j < bytes.len()
                    invariant
                        self.prog == old(self).prog,
                        self.max_steps == old(self).max_steps,
                        self.max_depth == old(self).max_depth,
                        self.steps == old(self).steps,
                        self.depth == old(self).depth,
                        j <= bytes@.len(),
                        self.out@ =~= o + bytes@.take(j as int),
                    decreases bytes@.len() - j,
                {
                    self.out.push(bytes[j]);
                    j = j + 1;
                }
                self.out.push(10u8);
                proof {
                    assert(bytes@.take(bytes@.len() as int) =~= bytes@);
                }
            },
            Instr::Call { .. } => {},
        }
        Ok(())
    }
}

/// The value of an operand.
fn value(o: Operand, temps: &Vec<i64>) -> (v: i64)
    requires
        operand_ok(o, temps@.len() as int),
    ensures
        v == val(o, temps@),
{
    match o {
        Operand::Temp(t) => temps[t as usize],
        Operand::Const(c) => c,
    }
}

} // verus!
