//! x86-64 code generation (GNU assembler, AT&T syntax) for Linux (System V)
//! and Windows (Microsoft x64). Internal calls use Bellows' own convention
//! (arguments pushed right-to-left, result in `%rax`); only calls into
//! libc (`printf`, `puts`, `exit`) follow the platform ABI. Every slot and
//! temp lives in the stack frame. Integer overflow and division by zero trap
//! at run time with the same semantics as the interpreter.

use vstd::prelude::*;

use crate::ir::{Func, Instr, Op, Operand, Program, Term, arities, block_ok, func_ok, instr_ok, ir_wf, operand_ok, spec_eval, term_ok};
use crate::text::{int_text, nat_text, push_char, push_int, push_nat, str_eq};

verus! {

#[derive(Debug, Clone, Copy, PartialEq, Eq, Structural)]
pub enum Target {
    Linux,
    Windows,
}

/// The target a command-line name selects.
pub open spec fn target_named(s: Seq<char>) -> Option<Target> {
    if s == "linux"@ || s == "linux-x86_64"@ {
        Some(Target::Linux)
    } else if s == "windows"@ || s == "windows-x86_64"@ || s == "mingw"@ {
        Some(Target::Windows)
    } else {
        None
    }
}

impl Target {
    pub fn parse(s: &str) -> (r: Option<Target>)
        ensures
            r == target_named(s@),
    {
        if str_eq(s, "linux") || str_eq(s, "linux-x86_64") {
            Some(Target::Linux)
        } else if str_eq(s, "windows") || str_eq(s, "windows-x86_64") || str_eq(s, "mingw") {
            Some(Target::Windows)
        } else {
            None
        }
    }
}

/// An assembly line: indented, newline-terminated.
pub open spec fn asm_line(s: Seq<char>) -> Seq<char> {
    "    "@ + s + seq!['\n']
}

/// A label line.
pub open spec fn asm_label(s: Seq<char>) -> Seq<char> {
    s + ":"@ + seq!['\n']
}

/// Offset of a slot from `%rbp`.
pub open spec fn slot_off(slot: int) -> int {
    -8 * (slot + 1)
}

/// Offset of a temp from `%rbp`: temps follow the slots.
pub open spec fn temp_off(slots: int, t: int) -> int {
    -8 * (slots + t + 1)
}

/// The stack frame of a function: 8 bytes per slot and temp, rounded up to
/// a multiple of 16.
pub open spec fn frame_size(slots: int, temps: int) -> int {
    (8 * (slots + temps) + 15) / 16 * 16
}

/// A byte of a string literal as the assembler's `.asciz` reads it.
pub open spec fn escape_byte(b: u8) -> Seq<char> {
    if b == 34 {
        seq!['\\', '"']
    } else if b == 92 {
        seq!['\\', '\\']
    } else if b == 10 {
        seq!['\\', 'n']
    } else if b == 9 {
        seq!['\\', 't']
    } else if 32 <= b <= 126 {
        seq![b as char]
    } else {
        seq!['\\', ((b / 64) + 48) as char, (((b / 8) % 8) + 48) as char, ((b % 8) + 48) as char]
    }
}

/// The escaped text of some bytes.
pub open spec fn escape_bytes(bs: Seq<u8>) -> Seq<char>
    decreases bs.len(),
{
    if bs.len() == 0 {
        Seq::empty()
    } else {
        escape_bytes(bs.drop_last()) + escape_byte(bs.last())
    }
}

/// A file name with backslashes turned into slashes.
pub open spec fn forward_slashes(s: Seq<char>) -> Seq<char> {
    s.map_values(|c: char| if c == '\\' { '/' } else { c })
}

struct Gen<'a> {
    out: String,
    target: Target,
    debug: bool,
    prog: &'a Program,
}

impl<'a> Gen<'a> {
    fn line(&mut self, s: &str)
        ensures
            final(self).out@ == old(self).out@ + asm_line(s@),
            final(self).target == old(self).target,
            final(self).debug == old(self).debug,
            final(self).prog == old(self).prog,
    {
        self.out.append("    ");
        self.out.append(s);
        push_char(&mut self.out, '\n');
    }

    fn label(&mut self, s: &str)
        ensures
            final(self).out@ == old(self).out@ + asm_label(s@),
            final(self).target == old(self).target,
            final(self).debug == old(self).debug,
            final(self).prog == old(self).prog,
    {
        self.out.append(s);
        self.out.append(":");
        push_char(&mut self.out, '\n');
    }

    /// `mov` of an operand into a register.
    fn load(&mut self, f: &Func, o: Operand, reg: &str)
        ensures
            final(self).out@ == old(self).out@ + asm_line(load_text(f.slots as int, o, reg@)),
            final(self).target == old(self).target,
            final(self).debug == old(self).debug,
            final(self).prog == old(self).prog,
    {
        let mut s = String::new();
        match o {
            Operand::Const(c) => {
                if -2147483648 <= c && c <= 2147483647 {
                    s.append("movq $");
                } else {
                    s.append("movabsq $");
                }
                push_int(&mut s, c);
                s.append(", ");
                s.append(reg);
            },
            Operand::Temp(t) => {
                s.append("movq ");
                push_int(&mut s, -8 * (f.slots as i64 + t as i64 + 1));
                s.append("(%rbp), ");
                s.append(reg);
            },
        }
        self.line(s.as_str());
    }

    fn store_temp(&mut self, f: &Func, t: u32, reg: &str)
        ensures
            final(self).out@ == old(self).out@ + asm_line("movq "@ + reg@ + ", "@ + int_text(temp_off(f.slots as int, t as int)) + "(%rbp)"@),
            final(self).target == old(self).target,
            final(self).debug == old(self).debug,
            final(self).prog == old(self).prog,
    {
        let mut s = String::from_str("movq ");
        s.append(reg);
        s.append(", ");
        push_int(&mut s, -8 * (f.slots as i64 + t as i64 + 1));
        s.append("(%rbp)");
        self.line(s.as_str());
    }

    /// Calls a libc function with the stack 16-byte aligned. `%rbx` is
    /// callee-saved on both ABIs, so it can carry the old `%rsp` across.
    fn libc_call(&mut self, name: &str)
        ensures
            final(self).out@ == old(self).out@ + libc_call_text(old(self).target, name@),
            final(self).target == old(self).target,
            final(self).debug == old(self).debug,
            final(self).prog == old(self).prog,
    {
        self.line("pushq %rbx");
        self.line("movq %rsp, %rbx");
        self.line("andq $-16, %rsp");
        match self.target {
            Target::Linux => {
                self.line("xorl %eax, %eax");
                let mut s = String::from_str("call ");
                s.append(name);
                s.append("@PLT");
                self.line(s.as_str());
            },
            Target::Windows => {
                self.line("subq $32, %rsp");
                let mut s = String::from_str("call ");
                s.append(name);
                self.line(s.as_str());
            },
        }
        self.line("movq %rbx, %rsp");
        self.line("popq %rbx");
    }
}

impl<'a> Gen<'a> {
    fn arg_regs(&self) -> (r: (&'static str, &'static str, &'static str))
        ensures
            (r.0@, r.1@, r.2@) == arg_regs(self.target),
    {
        match self.target {
            Target::Linux => ("%rdi", "%rsi", "%rdx"),
            Target::Windows => ("%rcx", "%rdx", "%r8"),
        }
    }

    /// Appends a line made of `a`, then a number, then `b`.
    fn line_int(&mut self, a: &str, n: i64, b: &str)
        ensures
            final(self).out@ == old(self).out@ + asm_line(a@ + int_text(n as int) + b@),
            final(self).target == old(self).target,
            final(self).debug == old(self).debug,
            final(self).prog == old(self).prog,
    {
        let mut s = String::from_str(a);
        push_int(&mut s, n);
        s.append(b);
        self.line(s.as_str());
    }

    /// Appends a line made of `a`, then a natural number, then `b`.
    fn line_nat(&mut self, a: &str, n: u64, b: &str)
        ensures
            final(self).out@ == old(self).out@ + asm_line(a@ + nat_text(n as nat) + b@),
            final(self).target == old(self).target,
            final(self).debug == old(self).debug,
            final(self).prog == old(self).prog,
    {
        let mut s = String::from_str(a);
        push_nat(&mut s, n);
        s.append(b);
        self.line(s.as_str());
    }

    /// Appends a line made of `a` then `b`.
    fn line2(&mut self, a: &str, b: &str)
        ensures
            final(self).out@ == old(self).out@ + asm_line(a@ + b@),
            final(self).target == old(self).target,
            final(self).debug == old(self).debug,
            final(self).prog == old(self).prog,
    {
        let mut s = String::from_str(a);
        s.append(b);
        self.line(s.as_str());
    }

    fn store_slot_line(&mut self, slot: u32)
        ensures
            final(self).out@ == old(self).out@ + asm_line("movq %rax, "@ + int_text(slot_off(slot as int)) + "(%rbp)"@),
            final(self).target == old(self).target,
            final(self).debug == old(self).debug,
            final(self).prog == old(self).prog,
    {
        self.line_int("movq %rax, ", -8 * (slot as i64 + 1), "(%rbp)");
    }

    fn op(&mut self, f: &Func, b: usize, dst: u32, op: Op)
        ensures
            final(self).out@ == old(self).out@ + op_text(f.name@, b as int, dst as int, op),
            final(self).target == old(self).target,
            final(self).debug == old(self).debug,
            final(self).prog == old(self).prog,
    {
        let ghost start = self.out@;
        match op {
            Op::Add => {
                self.line("addq %rcx, %rax");
                self.line("jo .Ltrap_overflow");
            },
            Op::Sub => {
                self.line("subq %rcx, %rax");
                self.line("jo .Ltrap_overflow");
            },
            Op::Mul => {
                self.line("imulq %rcx, %rax");
                self.line("jo .Ltrap_overflow");
            },
            Op::Div | Op::Rem => {
                self.line("testq %rcx, %rcx");
                self.line("jz .Ltrap_divzero");
                // MIN / -1 overflows (and faults in idiv): trap explicitly.
                self.line("cmpq $-1, %rcx");
                let mut l = String::from_str(".L");
                l.append(f.name.as_str());
                l.append("_div");
                push_nat(&mut l, b as u64);
                l.append("_");
                push_nat(&mut l, dst as u64);
                self.line2("jne ", l.as_str());
                self.line("movabsq $-9223372036854775808, %rdx");
                self.line("cmpq %rdx, %rax");
                self.line("je .Ltrap_overflow");
                self.label(l.as_str());
                self.line("cqto");
                self.line("idivq %rcx");
                if op == Op::Rem {
                    self.line("movq %rdx, %rax");
                }
            },
            _ => {
                self.line("cmpq %rcx, %rax");
                let set = match op {
                    Op::Lt => "setl",
                    Op::Le => "setle",
                    Op::Gt => "setg",
                    Op::Ge => "setge",
                    Op::Eq => "sete",
                    _ => "setne",
                };
                self.line2(set, " %al");
                self.line("movzbq %al, %rax");
            },
        }
        assert(self.out@ =~= start + op_text(f.name@, b as int, dst as int, op));
    }

    fn call(&mut self, f: &Func, dst: Option<u32>, func: usize, args: &Vec<Operand>)
        requires
            ir_wf(*old(self).prog),
            instr_ok(Instr::Call { dst, func, args: *args }, f.temps as int, f.slots as int, arities(*old(self).prog), old(self).prog.strings@.len() as int),
        ensures
            final(self).out@ == old(self).out@ + instr_text(*old(self).prog, old(self).target, *f, 0, Instr::Call { dst, func, args: *args }),
            final(self).target == old(self).target,
            final(self).debug == old(self).debug,
            final(self).prog == old(self).prog,
    {
        let ghost start = self.out@;
        let ghost slots = f.slots as int;
        let mut j = args.len();
        while j > 0
            invariant
                j <= args@.len(),
                start + push_args_text(slots, args@, args@.len() as int) == self.out@ + push_args_text(slots, args@, j as int),
                slots == f.slots,
                self.target == old(self).target,
                self.debug == old(self).debug,
                self.prog == old(self).prog,
            decreases j,
        {
            let ghost before = self.out@;
            self.load(f, args[j - 1], "%rax");
            self.line("pushq %rax");
            assert(before + push_args_text(slots, args@, j as int) =~= self.out@ + push_args_text(slots, args@, j - 1));
            j = j - 1;
        }
        assert(push_args_text(slots, args@, 0) =~= Seq::<char>::empty());
        let ghost after_push = self.out@;
        assert(after_push =~= start + push_args_text(slots, args@, args@.len() as int));
        proof {
            assert(arities(*self.prog).len() == self.prog.funcs@.len());
        }
        self.line2("call ash_", self.prog.funcs[func].name.as_str());
        if args.len() > 0 {
            proof {
                assert(arities(*self.prog)[func as int] == self.prog.funcs@[func as int].params);
            }
            self.line_nat("addq $", 8 * (args.len() as u64), ", %rsp");
        }
        match dst {
            Some(d) => self.store_temp(f, d, "%rax"),
            None => {},
        }
        assert(self.out@ =~= start + instr_text(*old(self).prog, old(self).target, *f, 0, Instr::Call { dst, func, args: *args }));
    }

    #[verifier::rlimit(40)]
    fn instr(&mut self, f: &Func, b: usize, ins: &Instr)
        requires
            ir_wf(*old(self).prog),
            instr_ok(*ins, f.temps as int, f.slots as int, arities(*old(self).prog), old(self).prog.strings@.len() as int),
        ensures
            final(self).out@ == old(self).out@ + instr_text(*old(self).prog, old(self).target, *f, b as int, *ins),
            final(self).target == old(self).target,
            final(self).debug == old(self).debug,
            final(self).prog == old(self).prog,
    {
        let ghost start = self.out@;
        let (a0, a1, a2) = self.arg_regs();
        match ins {
            Instr::Load { dst, slot } => {
                self.line_int("movq ", -8 * (*slot as i64 + 1), "(%rbp), %rax");
                self.store_temp(f, *dst, "%rax");
            },
            Instr::Store { slot, src } => {
                self.load(f, *src, "%rax");
                self.store_slot_line(*slot);
            },
            Instr::Bin { dst, op, a, b: y } => {
                self.load(f, *a, "%rax");
                self.load(f, *y, "%rcx");
                self.op(f, b, *dst, *op);
                self.store_temp(f, *dst, "%rax");
            },
            Instr::Neg { dst, a } => {
                self.load(f, *a, "%rax");
                self.line("negq %rax");
                self.line("jo .Ltrap_overflow");
                self.store_temp(f, *dst, "%rax");
            },
            Instr::Not { dst, a } => {
                self.load(f, *a, "%rax");
                self.line("xorq $1, %rax");
                self.store_temp(f, *dst, "%rax");
            },
            Instr::Call { dst, func, args } => {
                self.call(f, *dst, *func, args);
            },
            Instr::PrintInt(v) => {
                self.load(f, *v, a1);
                self.line2("leaq .Lfmt_int(%rip), ", a0);
                self.libc_call("printf");
            },
            Instr::PrintBool(v) => {
                self.load(f, *v, "%rax");
                self.line2("leaq .Lstr_true(%rip), ", a1);
                self.line2("leaq .Lstr_false(%rip), ", a2);
                self.line("testq %rax, %rax");
                let mut s = String::from_str("cmovzq ");
                s.append(a2);
                s.append(", ");
                s.append(a1);
                self.line(s.as_str());
                self.line2("leaq .Lfmt_str(%rip), ", a0);
                self.libc_call("printf");
            },
            Instr::PrintStr(i) => {
                let mut s = String::from_str("leaq .Lstr");
                push_nat(&mut s, *i as u64);
                s.append("(%rip), ");
                s.append(a0);
                self.line(s.as_str());
                self.libc_call("puts");
            },
        }
        assert(self.out@ =~= start + instr_text(*old(self).prog, old(self).target, *f, b as int, *ins));
    }
}

/// The text of `load`: a 32-bit constant, a 64-bit constant, or a temp.
pub open spec fn load_text(slots: int, o: Operand, reg: Seq<char>) -> Seq<char> {
    match o {
        Operand::Const(c) => (if -2147483648 <= c <= 2147483647 { "movq $"@ } else { "movabsq $"@ }) + int_text(c as int) + ", "@ + reg,
        Operand::Temp(t) => "movq "@ + int_text(temp_off(slots, t as int)) + "(%rbp), "@ + reg,
    }
}

/// The lines of a call into libc.
pub open spec fn libc_call_text(target: Target, name: Seq<char>) -> Seq<char> {
    asm_line("pushq %rbx"@) + asm_line("movq %rsp, %rbx"@) + asm_line("andq $-16, %rsp"@) + (match target {
        Target::Linux => asm_line("xorl %eax, %eax"@) + asm_line("call "@ + name + "@PLT"@),
        Target::Windows => asm_line("subq $32, %rsp"@) + asm_line("call "@ + name),
    }) + asm_line("movq %rbx, %rsp"@) + asm_line("popq %rbx"@)
}

/// The argument registers of the platform's C calling convention.
pub open spec fn arg_regs(t: Target) -> (Seq<char>, Seq<char>, Seq<char>) {
    match t {
        Target::Linux => ("%rdi"@, "%rsi"@, "%rdx"@),
        Target::Windows => ("%rcx"@, "%rdx"@, "%r8"@),
    }
}

pub open spec fn store_text(slots: int, t: int, reg: Seq<char>) -> Seq<char> {
    asm_line("movq "@ + reg + ", "@ + int_text(temp_off(slots, t)) + "(%rbp)"@)
}

pub open spec fn block_label(fname: Seq<char>, b: int) -> Seq<char> {
    ".L"@ + fname + "_b"@ + nat_text(b as nat)
}

pub open spec fn div_label(fname: Seq<char>, b: int, dst: int) -> Seq<char> {
    ".L"@ + fname + "_div"@ + nat_text(b as nat) + "_"@ + nat_text(dst as nat)
}

/// What the condition of a `set<cc>` instruction tests after
/// `cmpq %rcx, %rax` (a signed comparison of `%rax` with `%rcx`), as the
/// x86 manual defines the condition codes `l`, `le`, `g`, `ge`, `e`, `ne`.
pub open spec fn cc_holds(set: Seq<char>, rax: int, rcx: int) -> bool {
    if set == "setl"@ {
        rax < rcx
    } else if set == "setle"@ {
        rax <= rcx
    } else if set == "setg"@ {
        rax > rcx
    } else if set == "setge"@ {
        rax >= rcx
    } else if set == "sete"@ {
        rax == rcx
    } else if set == "setne"@ {
        rax != rcx
    } else {
        false
    }
}

/// The native code of a comparison computes what the interpreter does: the
/// `set<cc>` emitted for it, run on the left operand in `%rax` and the right
/// one in `%rcx`, sets 1 exactly when `eval` gives 1.
pub proof fn lemma_comparison_code_agrees_with_eval(op: Op, x: i64, y: i64)
    requires
        op == Op::Lt || op == Op::Le || op == Op::Gt || op == Op::Ge || op == Op::Eq || op == Op::Ne,
    ensures
        spec_eval(op, x, y) is Ok,
        cc_holds(set_text(op), x as int, y as int) <==> spec_eval(op, x, y)->Ok_0 == 1,
{
    reveal_strlit("setl");
    reveal_strlit("setle");
    reveal_strlit("setg");
    reveal_strlit("setge");
    reveal_strlit("sete");
    reveal_strlit("setne");
    assert("setl"@ != "setle"@) by { assert("setl"@.len() != "setle"@.len()); }
    assert("setl"@ != "setg"@) by { assert("setl"@[3] != "setg"@[3]); }
    assert("setl"@ != "setge"@) by { assert("setl"@.len() != "setge"@.len()); }
    assert("setle"@ != "setg"@) by { assert("setle"@.len() != "setg"@.len()); }
    assert("setle"@ != "setge"@) by { assert("setle"@[3] != "setge"@[3]); }
    assert("setg"@ != "setge"@) by { assert("setg"@.len() != "setge"@.len()); }
    assert("sete"@ != "setl"@) by { assert("sete"@[3] != "setl"@[3]); }
    assert("sete"@ != "setle"@) by { assert("sete"@.len() != "setle"@.len()); }
    assert("sete"@ != "setg"@) by { assert("sete"@[3] != "setg"@[3]); }
    assert("sete"@ != "setge"@) by { assert("sete"@.len() != "setge"@.len()); }
    assert("setne"@ != "setl"@) by { assert("setne"@.len() != "setl"@.len()); }
    assert("setne"@ != "setle"@) by { assert("setne"@[3] != "setle"@[3]); }
    assert("setne"@ != "setg"@) by { assert("setne"@.len() != "setg"@.len()); }
    assert("setne"@ != "setge"@) by { assert("setne"@[3] != "setge"@[3]); }
    assert("setne"@ != "sete"@) by { assert("setne"@.len() != "sete"@.len()); }
}

/// `set<cc>` for a comparison.
pub open spec fn set_text(op: Op) -> Seq<char> {
    match op {
        Op::Lt => "setl"@,
        Op::Le => "setle"@,
        Op::Gt => "setg"@,
        Op::Ge => "setge"@,
        Op::Eq => "sete"@,
        _ => "setne"@,
    }
}

/// The arithmetic of a binary instruction on `%rax` and `%rcx`.
pub open spec fn op_text(fname: Seq<char>, b: int, dst: int, op: Op) -> Seq<char> {
    match op {
        Op::Add => asm_line("addq %rcx, %rax"@) + asm_line("jo .Ltrap_overflow"@),
        Op::Sub => asm_line("subq %rcx, %rax"@) + asm_line("jo .Ltrap_overflow"@),
        Op::Mul => asm_line("imulq %rcx, %rax"@) + asm_line("jo .Ltrap_overflow"@),
        Op::Div | Op::Rem => asm_line("testq %rcx, %rcx"@) + asm_line("jz .Ltrap_divzero"@) + asm_line("cmpq $-1, %rcx"@)
            + asm_line("jne "@ + div_label(fname, b, dst)) + asm_line("movabsq $-9223372036854775808, %rdx"@)
            + asm_line("cmpq %rdx, %rax"@) + asm_line("je .Ltrap_overflow"@) + asm_label(div_label(fname, b, dst))
            + asm_line("cqto"@) + asm_line("idivq %rcx"@) + (if op == Op::Rem { asm_line("movq %rdx, %rax"@) } else { Seq::empty() }),
        _ => asm_line("cmpq %rcx, %rax"@) + asm_line(set_text(op) + " %al"@) + asm_line("movzbq %al, %rax"@),
    }
}

/// Pushes `args[k-1]`, ..., `args[0]`: the last argument first.
pub open spec fn push_args_text(slots: int, args: Seq<Operand>, k: int) -> Seq<char>
    decreases k,
{
    if k <= 0 {
        Seq::empty()
    } else {
        asm_line(load_text(slots, args[k - 1], "%rax"@)) + asm_line("pushq %rax"@) + push_args_text(slots, args, k - 1)
    }
}

/// The assembly of one instruction of block `b` of `f`.
pub open spec fn instr_text(p: Program, t: Target, f: Func, b: int, ins: Instr) -> Seq<char> {
    let slots = f.slots as int;
    let (a0, a1, a2) = arg_regs(t);
    match ins {
        Instr::Load { dst, slot } => asm_line("movq "@ + int_text(slot_off(slot as int)) + "(%rbp), %rax"@) + store_text(slots, dst as int, "%rax"@),
        Instr::Store { slot, src } => asm_line(load_text(slots, src, "%rax"@)) + asm_line("movq %rax, "@ + int_text(slot_off(slot as int)) + "(%rbp)"@),
        Instr::Bin { dst, op, a, b: y } => asm_line(load_text(slots, a, "%rax"@)) + asm_line(load_text(slots, y, "%rcx"@))
            + op_text(f.name@, b, dst as int, op) + store_text(slots, dst as int, "%rax"@),
        Instr::Neg { dst, a } => asm_line(load_text(slots, a, "%rax"@)) + asm_line("negq %rax"@) + asm_line("jo .Ltrap_overflow"@)
            + store_text(slots, dst as int, "%rax"@),
        Instr::Not { dst, a } => asm_line(load_text(slots, a, "%rax"@)) + asm_line("xorq $1, %rax"@) + store_text(slots, dst as int, "%rax"@),
        Instr::Call { dst, func, args } => push_args_text(slots, args@, args@.len() as int) + asm_line("call ash_"@ + p.funcs@[func as int].name@)
            + (if args@.len() > 0 { asm_line("addq $"@ + nat_text(8 * args@.len()) + ", %rsp"@) } else { Seq::empty() })
            + (match dst {
                Some(d) => store_text(slots, d as int, "%rax"@),
                None => Seq::empty(),
            }),
        Instr::PrintInt(v) => asm_line(load_text(slots, v, a1)) + asm_line("leaq .Lfmt_int(%rip), "@ + a0) + libc_call_text(t, "printf"@),
        Instr::PrintBool(v) => asm_line(load_text(slots, v, "%rax"@)) + asm_line("leaq .Lstr_true(%rip), "@ + a1)
            + asm_line("leaq .Lstr_false(%rip), "@ + a2) + asm_line("testq %rax, %rax"@) + asm_line("cmovzq "@ + a2 + ", "@ + a1)
            + asm_line("leaq .Lfmt_str(%rip), "@ + a0) + libc_call_text(t, "printf"@),
        Instr::PrintStr(i) => asm_line("leaq .Lstr"@ + nat_text(i as nat) + "(%rip), "@ + a0) + libc_call_text(t, "puts"@),
    }
}

pub open spec fn ret_value_text(slots: int, v: Option<Operand>) -> Seq<char> {
    match v {
        Some(o) => asm_line(load_text(slots, o, "%rax"@)),
        None => asm_line("xorl %eax, %eax"@),
    }
}

/// The assembly of a terminator.
pub open spec fn term_text(f: Func, t: Term) -> Seq<char> {
    match t {
        Term::Jmp(x) => asm_line("jmp "@ + block_label(f.name@, x as int)),
        Term::Br { cond, t, f: fb } => asm_line(load_text(f.slots as int, cond, "%rax"@)) + asm_line("testq %rax, %rax"@)
            + asm_line("jne "@ + block_label(f.name@, t as int)) + asm_line("jmp "@ + block_label(f.name@, fb as int)),
        Term::Ret(v) => ret_value_text(f.slots as int, v) + asm_line("movq %rbp, %rsp"@) + asm_line("popq %rbp"@) + asm_line("ret"@),
        Term::Unset => Seq::empty(),
    }
}

/// The first `k` instructions of block `b`.
pub open spec fn instrs_text(p: Program, t: Target, f: Func, b: int, k: int) -> Seq<char>
    decreases k,
{
    if k <= 0 {
        Seq::empty()
    } else {
        instrs_text(p, t, f, b, k - 1) + instr_text(p, t, f, b, f.blocks@[b].instrs@[k - 1])
    }
}

/// Block `b`: its label, its line number when debugging, its instructions
/// and its terminator.
pub open spec fn block_text(p: Program, t: Target, debug: bool, f: Func, b: int) -> Seq<char> {
    let blk = f.blocks@[b];
    asm_label(block_label(f.name@, b)) + (if debug && blk.line > 0 { asm_line(".loc 1 "@ + nat_text(blk.line as nat) + " 0"@) } else { Seq::empty() })
        + instrs_text(p, t, f, b, blk.instrs@.len() as int) + term_text(f, blk.term)
}

pub open spec fn blocks_text(p: Program, t: Target, debug: bool, f: Func, k: int) -> Seq<char>
    decreases k,
{
    if k <= 0 {
        Seq::empty()
    } else {
        blocks_text(p, t, debug, f, k - 1) + block_text(p, t, debug, f, k - 1)
    }
}

/// Copies the first `k` parameters from the caller's pushes into their slots.
pub open spec fn params_text(k: int) -> Seq<char>
    decreases k,
{
    if k <= 0 {
        Seq::empty()
    } else {
        params_text(k - 1) + asm_line("movq "@ + int_text(16 + 8 * (k - 1)) + "(%rbp), %rax"@)
            + asm_line("movq %rax, "@ + int_text(slot_off(k - 1)) + "(%rbp)"@)
    }
}

/// A function's label and prologue: frame set-up and parameter copies.
pub open spec fn prologue_text(t: Target, f: Func) -> Seq<char> {
    let name = "ash_"@ + f.name@;
    let frame = frame_size(f.slots as int, f.temps as int);
    (if t == Target::Linux { asm_line(".type "@ + name + ", @function"@) } else { Seq::empty() }) + asm_label(name)
        + asm_line("pushq %rbp"@) + asm_line("movq %rsp, %rbp"@)
        + (if frame > 0 { asm_line("subq $"@ + nat_text(frame as nat) + ", %rsp"@) } else { Seq::empty() })
        + params_text(f.params as int)
}

pub open spec fn epilogue_text(t: Target, f: Func) -> Seq<char> {
    let name = "ash_"@ + f.name@;
    (if t == Target::Linux { asm_line(".size "@ + name + ", .-"@ + name) } else { Seq::empty() }) + seq!['\n']
}

/// The assembly of a function.
pub open spec fn func_text(p: Program, t: Target, debug: bool, f: Func) -> Seq<char> {
    prologue_text(t, f) + blocks_text(p, t, debug, f, f.blocks@.len() as int) + epilogue_text(t, f)
}

/// The first `k` functions.
pub open spec fn funcs_text(p: Program, t: Target, debug: bool, k: int) -> Seq<char>
    decreases k,
{
    if k <= 0 {
        Seq::empty()
    } else {
        funcs_text(p, t, debug, k - 1) + func_text(p, t, debug, p.funcs@[k - 1])
    }
}

/// The target's description in the header.
pub open spec fn target_text(t: Target) -> Seq<char> {
    match t {
        Target::Linux => "x86_64-linux (System V)"@,
        Target::Windows => "x86_64-windows (MS x64)"@,
    }
}

/// A runtime trap: print the message and exit with status 101.
pub open spec fn trap_text(t: Target, label: Seq<char>, msg: Seq<char>) -> Seq<char> {
    asm_label(label) + asm_line("leaq "@ + msg + "(%rip), "@ + arg_regs(t).0) + libc_call_text(t, "puts"@)
        + asm_line("movl $101, "@ + (if t == Target::Linux { "%edi"@ } else { "%ecx"@ })) + libc_call_text(t, "exit"@)
}

/// The entry point the C runtime calls: it calls the program's `main`.
pub open spec fn main_text(p: Program, t: Target) -> Seq<char> {
    asm_line(".globl main"@) + (if t == Target::Linux { asm_line(".type main, @function"@) } else { Seq::empty() })
        + asm_label("main"@) + asm_line("pushq %rbp"@) + asm_line("movq %rsp, %rbp"@)
        + asm_line("call ash_"@ + p.funcs@[p.main as int].name@) + asm_line("xorl %eax, %eax"@) + asm_line("popq %rbp"@)
        + asm_line("ret"@) + seq!['\n']
}

/// The entry point and the trap handlers.
pub open spec fn runtime_text(p: Program, t: Target) -> Seq<char> {
    main_text(p, t) + trap_text(t, ".Ltrap_overflow"@, ".Lmsg_overflow"@)
        + trap_text(t, ".Ltrap_divzero"@, ".Lmsg_divzero"@) + seq!['\n']
}

/// The read-only data: formats, boolean texts and trap messages.
pub open spec fn rodata_text(t: Target) -> Seq<char> {
    asm_line(if t == Target::Linux { ".section .rodata"@ } else { ".section .rdata,\"dr\""@ })
        + asm_label(".Lfmt_int"@) + asm_line(".asciz \"%lld\\n\""@) + asm_label(".Lfmt_str"@)
        + asm_line(".asciz \"%s\\n\""@) + asm_label(".Lstr_true"@) + asm_line(".asciz \"true\""@)
        + asm_label(".Lstr_false"@) + asm_line(".asciz \"false\""@) + asm_label(".Lmsg_overflow"@)
        + asm_line(".asciz \"runtime error: integer overflow\""@) + asm_label(".Lmsg_divzero"@)
        + asm_line(".asciz \"runtime error: division by zero\""@)
}

/// The first `k` string literals.
pub open spec fn strings_text(p: Program, k: int) -> Seq<char>
    decreases k,
{
    if k <= 0 {
        Seq::empty()
    } else {
        strings_text(p, k - 1) + asm_label(".Lstr"@ + nat_text((k - 1) as nat))
            + asm_line(".asciz \""@ + escape_bytes(vstd::utf8::encode_utf8(p.strings@[k - 1]@)) + "\""@)
    }
}

/// A complete assembly file for `p`; `debug_file` names the source file for
/// line information.
pub open spec fn asm_text(p: Program, t: Target, debug_file: Option<Seq<char>>) -> Seq<char> {
    header_text(t, debug_file) + asm_line(".text"@) + funcs_text(p, t, debug_file is Some, p.funcs@.len() as int) + runtime_text(p, t)
        + rodata_text(t) + strings_text(p, p.strings@.len() as int)
        + (if t == Target::Linux { asm_line(".section .note.GNU-stack,\"\",@progbits"@) } else { Seq::empty() })
}

impl<'a> Gen<'a> {
    fn block_label(&self, f: &Func, b: u64) -> (s: String)
        ensures
            s@ == block_label(f.name@, b as int),
    {
        let mut s = String::from_str(".L");
        s.append(f.name.as_str());
        s.append("_b");
        push_nat(&mut s, b);
        s
    }

    fn term(&mut self, f: &Func, t: Term)
        ensures
            final(self).out@ == old(self).out@ + term_text(*f, t),
            final(self).target == old(self).target,
            final(self).debug == old(self).debug,
            final(self).prog == old(self).prog,
    {
        let ghost start = self.out@;
        match t {
            Term::Jmp(x) => {
                let l = self.block_label(f, x as u64);
                self.line2("jmp ", l.as_str());
            },
            Term::Br { cond, t, f: fb } => {
                self.load(f, cond, "%rax");
                self.line("testq %rax, %rax");
                let l = self.block_label(f, t as u64);
                self.line2("jne ", l.as_str());
                let l = self.block_label(f, fb as u64);
                self.line2("jmp ", l.as_str());
            },
            Term::Ret(v) => {
                match v {
                    Some(o) => self.load(f, o, "%rax"),
                    None => self.line("xorl %eax, %eax"),
                }
                self.line("movq %rbp, %rsp");
                self.line("popq %rbp");
                self.line("ret");
            },
            Term::Unset => {},
        }
        assert(self.out@ =~= start + term_text(*f, t));
    }

    fn block(&mut self, f: &Func, b: usize)
        requires
            ir_wf(*old(self).prog),
            func_ok(*f, arities(*old(self).prog), old(self).prog.strings@.len() as int),
            b < f.blocks@.len(),
        ensures
            final(self).out@ == old(self).out@ + block_text(*old(self).prog, old(self).target, old(self).debug, *f, b as int),
            final(self).target == old(self).target,
            final(self).debug == old(self).debug,
            final(self).prog == old(self).prog,
    {
        let ghost start = self.out@;
        let blk = &f.blocks[b];
        assert(block_ok(*blk, *f, arities(*self.prog), self.prog.strings@.len() as int));
        let l = self.block_label(f, b as u64);
        self.label(l.as_str());
        if self.debug && blk.line > 0 {
            self.line_nat(".loc 1 ", blk.line as u64, " 0");
        }
        let ghost head = self.out@;
        let mut k: usize = 0;
        while k < blk.instrs.len()
            invariant
                k <= blk.instrs@.len(),
                *blk == f.blocks@[b as int],
                ir_wf(*self.prog),
                self.prog == old(self).prog,
                self.target == old(self).target,
                self.debug == old(self).debug,
                crate::ir::instrs_ok(blk.instrs@, f.temps as int, f.slots as int, arities(*self.prog), self.prog.strings@.len() as int),
                self.out@ == head + instrs_text(*self.prog, self.target, *f, b as int, k as int),
            decreases blk.instrs@.len() - k,
        {
            assert(instr_ok(blk.instrs@[k as int], f.temps as int, f.slots as int, arities(*self.prog), self.prog.strings@.len() as int));
            self.instr(f, b, &blk.instrs[k]);
            assert(self.out@ =~= head + instrs_text(*self.prog, self.target, *f, b as int, k + 1));
            k = k + 1;
        }
        self.term(f, blk.term);
        assert(self.out@ =~= start + block_text(*old(self).prog, old(self).target, old(self).debug, *f, b as int));
    }

    fn prologue(&mut self, f: &Func)
        ensures
            final(self).out@ == old(self).out@ + prologue_text(old(self).target, *f),
            final(self).target == old(self).target,
            final(self).debug == old(self).debug,
            final(self).prog == old(self).prog,
    {
        let ghost start = self.out@;
        let mut name = String::from_str("ash_");
        name.append(f.name.as_str());
        if self.target == Target::Linux {
            let mut s = String::from_str(".type ");
            s.append(name.as_str());
            s.append(", @function");
            self.line(s.as_str());
        }
        self.label(name.as_str());
        let frame: u64 = (8 * (f.slots as u64 + f.temps as u64) + 15) / 16 * 16;
        self.line("pushq %rbp");
        self.line("movq %rsp, %rbp");
        if frame > 0 {
            self.line_nat("subq $", frame, ", %rsp");
        }
        let ghost head = self.out@;
        let mut p: u32 = 0;
        while p < f.params
            invariant
                p <= f.params,
                self.out@ == head + params_text(p as int),
                self.prog == old(self).prog,
                self.target == old(self).target,
                self.debug == old(self).debug,
            decreases f.params - p,
        {
            self.line_int("movq ", 16 + 8 * (p as i64), "(%rbp), %rax");
            self.store_slot_line(p);
            assert(self.out@ =~= head + params_text(p + 1));
            p = p + 1;
        }
        assert(self.out@ =~= start + prologue_text(old(self).target, *f));
    }

    fn epilogue(&mut self, f: &Func)
        ensures
            final(self).out@ == old(self).out@ + epilogue_text(old(self).target, *f),
            final(self).target == old(self).target,
            final(self).debug == old(self).debug,
            final(self).prog == old(self).prog,
    {
        let ghost start = self.out@;
        if self.target == Target::Linux {
            let mut name = String::from_str("ash_");
            name.append(f.name.as_str());
            let mut s = String::from_str(".size ");
            s.append(name.as_str());
            s.append(", .-");
            s.append(name.as_str());
            self.line(s.as_str());
        }
        push_char(&mut self.out, '\n');
        assert(self.out@ =~= start + epilogue_text(old(self).target, *f));
    }

    fn func(&mut self, f: &Func)
        requires
            ir_wf(*old(self).prog),
            func_ok(*f, arities(*old(self).prog), old(self).prog.strings@.len() as int),
        ensures
            final(self).out@ == old(self).out@ + func_text(*old(self).prog, old(self).target, old(self).debug, *f),
            final(self).target == old(self).target,
            final(self).debug == old(self).debug,
            final(self).prog == old(self).prog,
    {
        let ghost start = self.out@;
        self.prologue(f);
        let ghost mid = self.out@;
        let mut b: usize = 0;
        while b < f.blocks.len()
            invariant
                b <= f.blocks@.len(),
                ir_wf(*self.prog),
                func_ok(*f, arities(*self.prog), self.prog.strings@.len() as int),
                self.out@ == mid + blocks_text(*self.prog, self.target, self.debug, *f, b as int),
                self.prog == old(self).prog,
                self.target == old(self).target,
                self.debug == old(self).debug,
            decreases f.blocks@.len() - b,
        {
            self.block(f, b);
            assert(self.out@ =~= mid + blocks_text(*self.prog, self.target, self.debug, *f, b + 1));
            b = b + 1;
        }
        self.epilogue(f);
        assert(self.out@ =~= start + func_text(*old(self).prog, old(self).target, old(self).debug, *f));
    }

    fn trap(&mut self, label: &str, msg: &str)
        ensures
            final(self).out@ == old(self).out@ + trap_text(old(self).target, label@, msg@),
            final(self).target == old(self).target,
            final(self).debug == old(self).debug,
            final(self).prog == old(self).prog,
    {
        let ghost start = self.out@;
        self.label(label);
        let (a0, _a1, _a2) = self.arg_regs();
        let mut s = String::from_str("leaq ");
        s.append(msg);
        s.append("(%rip), ");
        s.append(a0);
        self.line(s.as_str());
        self.libc_call("puts");
        self.line2("movl $101, ", if self.target == Target::Linux { "%edi" } else { "%ecx" });
        self.libc_call("exit");
        assert(self.out@ =~= start + trap_text(old(self).target, label@, msg@));
    }

    fn main_stub(&mut self)
        requires
            ir_wf(*old(self).prog),
        ensures
            final(self).out@ == old(self).out@ + main_text(*old(self).prog, old(self).target),
            final(self).target == old(self).target,
            final(self).debug == old(self).debug,
            final(self).prog == old(self).prog,
    {
        let ghost start = self.out@;
        self.line(".globl main");
        if self.target == Target::Linux {
            self.line(".type main, @function");
        }
        let ghost a = self.out@;
        self.label("main");
        self.line("pushq %rbp");
        self.line("movq %rsp, %rbp");
        let ghost b = self.out@;
        assert(b =~= a + (asm_label("main"@) + asm_line("pushq %rbp"@) + asm_line("movq %rsp, %rbp"@)));
        self.line2("call ash_", self.prog.funcs[self.prog.main].name.as_str());
        self.line("xorl %eax, %eax");
        self.line("popq %rbp");
        self.line("ret");
        push_char(&mut self.out, '\n');
        assert(self.out@ =~= start + main_text(*old(self).prog, old(self).target));
    }

    fn runtime(&mut self)
        requires
            ir_wf(*old(self).prog),
        ensures
            final(self).out@ == old(self).out@ + runtime_text(*old(self).prog, old(self).target),
            final(self).target == old(self).target,
            final(self).debug == old(self).debug,
            final(self).prog == old(self).prog,
    {
        let ghost start = self.out@;
        self.main_stub();
        let ghost a = self.out@;
        self.trap(".Ltrap_overflow", ".Lmsg_overflow");
        let ghost b = self.out@;
        assert(b =~= start + (main_text(*old(self).prog, old(self).target) + trap_text(old(self).target, ".Ltrap_overflow"@, ".Lmsg_overflow"@)));
        self.trap(".Ltrap_divzero", ".Lmsg_divzero");
        push_char(&mut self.out, '\n');
        assert(self.out@ =~= start + runtime_text(*old(self).prog, old(self).target));
    }

    fn rodata(&mut self)
        ensures
            final(self).out@ == old(self).out@ + rodata_text(old(self).target),
            final(self).target == old(self).target,
            final(self).debug == old(self).debug,
            final(self).prog == old(self).prog,
    {
        let ghost start = self.out@;
        if self.target == Target::Linux {
            self.line(".section .rodata");
        } else {
            self.line(".section .rdata,\"dr\"");
        }
        self.label(".Lfmt_int");
        self.line(".asciz \"%lld\\n\"");
        self.label(".Lfmt_str");
        self.line(".asciz \"%s\\n\"");
        self.label(".Lstr_true");
        self.line(".asciz \"true\"");
        self.label(".Lstr_false");
        self.line(".asciz \"false\"");
        self.label(".Lmsg_overflow");
        self.line(".asciz \"runtime error: integer overflow\"");
        self.label(".Lmsg_divzero");
        self.line(".asciz \"runtime error: division by zero\"");
        assert(self.out@ =~= start + rodata_text(old(self).target));
    }

    fn string_literal(&mut self, i: usize)
        requires
            i < old(self).prog.strings@.len(),
        ensures
            final(self).out@ == old(self).out@ + asm_label(".Lstr"@ + nat_text(i as nat))
                + asm_line(".asciz \""@ + escape_bytes(vstd::utf8::encode_utf8(old(self).prog.strings@[i as int]@)) + "\""@),
            final(self).target == old(self).target,
            final(self).debug == old(self).debug,
            final(self).prog == old(self).prog,
    {
        let mut l = String::from_str(".Lstr");
        push_nat(&mut l, i as u64);
        self.label(l.as_str());
        let bytes = self.prog.strings[i].as_str().as_bytes();
        let mut s = String::from_str(".asciz \"");
        let ghost s0 = s@;
        let mut k: usize = 0;
        while k < bytes.len()
            invariant
                k <= bytes@.len(),
                s@ == s0 + escape_bytes(bytes@.take(k as int)),
            decreases bytes@.len() - k,
        {
            let b = bytes[k];
            let ghost before = s@;
            if b == 34u8 {
                push_char(&mut s, '\\');
                push_char(&mut s, '"');
            } else if b == 92u8 {
                push_char(&mut s, '\\');
                push_char(&mut s, '\\');
            } else if b == 10u8 {
                push_char(&mut s, '\\');
                push_char(&mut s, 'n');
            } else if b == 9u8 {
                push_char(&mut s, '\\');
                push_char(&mut s, 't');
            } else if 32u8 <= b && b <= 126u8 {
                push_char(&mut s, b as char);
            } else {
                push_char(&mut s, '\\');
                push_char(&mut s, ((b / 64) + 48) as char);
                push_char(&mut s, (((b / 8) % 8) + 48) as char);
                push_char(&mut s, ((b % 8) + 48) as char);
            }
            proof {
                assert(bytes@.take(k + 1).drop_last() =~= bytes@.take(k as int));
                assert(bytes@.take(k + 1).last() == b);
                assert(s@ =~= before + escape_byte(b));
            }
            k = k + 1;
        }
        assert(bytes@.take(bytes@.len() as int) =~= bytes@);
        s.append("\"");
        self.line(s.as_str());
    }
}

/// The first line, naming the target, and the source file line when
/// debugging.
pub open spec fn header_text(t: Target, debug_file: Option<Seq<char>>) -> Seq<char> {
    "# generated by bellows — target "@ + target_text(t) + seq!['\n'] + (match debug_file {
        Some(file) => "    .file 1 \""@ + forward_slashes(file) + "\""@ + seq!['\n'],
        None => Seq::empty(),
    })
}

fn header(target: Target, debug_file: Option<&str>) -> (out: String)
    ensures
        out@ == header_text(target, match debug_file {
            Some(f) => Some(f@),
            None => None,
        }),
{
    let mut out = String::new();
    out.append("# generated by bellows — target ");
    match target {
        Target::Linux => out.append("x86_64-linux (System V)"),
        Target::Windows => out.append("x86_64-windows (MS x64)"),
    }
    push_char(&mut out, '\n');
    match debug_file {
        Some(file) => {
            out.append("    .file 1 \"");
            let ghost o = out@;
            let n = file.unicode_len();
            let mut i: usize = 0;
            while i < n
                invariant
                    n == file@.len(),
                    i <= n,
                    out@ == o + forward_slashes(file@.take(i as int)),
                decreases n - i,
            {
                let c = file.get_char(i);
                push_char(&mut out, if c == '\\' { '/' } else { c });
                assert(forward_slashes(file@.take(i + 1)) =~= forward_slashes(file@.take(i as int)).push(if c == '\\' { '/' } else { c }));
                i = i + 1;
            }
            assert(file@.take(n as int) =~= file@);
            out.append("\"");
            push_char(&mut out, '\n');
        },
        None => {},
    }
    out
}

/// Emits a complete assembly file. `debug_file` enables DWARF line info.
#[verifier::rlimit(80)]
pub fn generate(p: &Program, target: Target, debug_file: Option<&str>) -> (r: String)
    requires
        ir_wf(*p),
    ensures
        r@ == asm_text(*p, target, match debug_file {
            Some(f) => Some(f@),
            None => None,
        }),
{
    let ghost df = match debug_file {
        Some(f) => Some(f@),
        None => None::<Seq<char>>,
    };
    let mut g = Gen { out: header(target, debug_file), target, debug: debug_file.is_some(), prog: p };
    g.line(".text");
    let ghost head = g.out@;
    assert(head =~= header_text(target, df) + asm_line(".text"@));
    let mut i: usize = 0;
    while i < p.funcs.len()
        invariant
            i <= p.funcs@.len(),
            ir_wf(*p),
            g.prog == p,
            g.target == target,
            g.debug == debug_file.is_some(),
            g.out@ == head + funcs_text(*p, target, g.debug, i as int),
        decreases p.funcs@.len() - i,
    {
        assert(func_ok(p.funcs@[i as int], arities(*p), p.strings@.len() as int));
        g.func(&p.funcs[i]);
        assert(g.out@ =~= head + funcs_text(*p, target, g.debug, i + 1));
        i = i + 1;
    }
    let ghost f_end = g.out@;
    g.runtime();
    g.rodata();
    let ghost mid = g.out@;
    assert(mid =~= f_end + (runtime_text(*p, target) + rodata_text(target)));
    let mut i: usize = 0;
    while i < p.strings.len()
        invariant
            i <= p.strings@.len(),
            g.prog == p,
            g.target == target,
            g.debug == debug_file.is_some(),
            g.out@ == mid + strings_text(*p, i as int),
        decreases p.strings@.len() - i,
    {
        g.string_literal(i);
        assert(g.out@ =~= mid + strings_text(*p, i + 1));
        i = i + 1;
    }
    if target == Target::Linux {
        g.line(".section .note.GNU-stack,\"\",@progbits");
    }
    let ghost pre = header_text(target, df) + asm_line(".text"@) + funcs_text(*p, target, g.debug, p.funcs@.len() as int);
    assert(f_end == pre);
    let ghost pre2 = pre + runtime_text(*p, target) + rodata_text(target);
    assert(mid =~= pre2);
    let ghost pre3 = pre2 + strings_text(*p, p.strings@.len() as int);
    assert(g.out@ =~= pre3 + (if target == Target::Linux { asm_line(".section .note.GNU-stack,\"\",@progbits"@) } else { Seq::empty() }));
    g.out
}

} // verus!
