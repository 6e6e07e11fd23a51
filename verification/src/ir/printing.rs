//! The textual form of IR programs (`--emit ir`).

use vstd::prelude::*;

use crate::ir::{BasicBlock, Func, Instr, Operand, Program, Term, op_text};
use crate::text::{debug_str, debug_text, int_text, nat_text, push_char, push_int, push_nat};

verus! {

pub open spec fn operand_text(o: Operand) -> Seq<char> {
    match o {
        Operand::Temp(t) => "%t"@ + nat_text(t as nat),
        Operand::Const(c) => int_text(c as int),
    }
}

/// Operands separated by `", "`.
pub open spec fn operands_text(os: Seq<Operand>) -> Seq<char>
    decreases os.len(),
{
    if os.len() == 0 {
        Seq::empty()
    } else if os.len() == 1 {
        operand_text(os[0])
    } else {
        operand_text(os[0]) + ", "@ + operands_text(os.drop_first())
    }
}

pub open spec fn temp_text(t: u32) -> Seq<char> {
    "%t"@ + nat_text(t as nat)
}

/// Every call names a function of the program.
pub open spec fn calls_in_range(p: Program) -> bool {
    forall|f: int, b: int, k: int|
        0 <= f < p.funcs@.len() && 0 <= b < p.funcs@[f].blocks@.len() && 0 <= k < p.funcs@[f].blocks@[b].instrs@.len()
            ==> (#[trigger] p.funcs@[f].blocks@[b].instrs@[k] matches Instr::Call { func, .. } ==> func < p.funcs@.len())
}

/// An instruction in the textual form.
pub open spec fn instr_line(p: Program, ins: Instr) -> Seq<char> {
    match ins {
        Instr::Load { dst, slot } => temp_text(dst) + " = load s"@ + nat_text(slot as nat),
        Instr::Store { slot, src } => "store s"@ + nat_text(slot as nat) + ", "@ + operand_text(src),
        Instr::Bin { dst, op, a, b } => temp_text(dst) + " = "@ + op_text(op) + " "@ + operand_text(a) + ", "@ + operand_text(b),
        Instr::Neg { dst, a } => temp_text(dst) + " = neg "@ + operand_text(a),
        Instr::Not { dst, a } => temp_text(dst) + " = not "@ + operand_text(a),
        Instr::Call { dst, func, args } => (match dst {
            Some(d) => temp_text(d) + " = "@,
            None => Seq::empty(),
        }) + "call "@ + p.funcs@[func as int].name@ + "("@ + operands_text(args@) + ")"@,
        Instr::PrintInt(v) => "print.int "@ + operand_text(v),
        Instr::PrintBool(v) => "print.bool "@ + operand_text(v),
        Instr::PrintStr(i) => "print.str str"@ + nat_text(i as nat),
    }
}

/// A terminator in the textual form.
pub open spec fn term_line(t: Term) -> Seq<char> {
    match t {
        Term::Jmp(b) => "jmp b"@ + nat_text(b as nat),
        Term::Br { cond, t, f } => "br "@ + operand_text(cond) + ", b"@ + nat_text(t as nat) + ", b"@ + nat_text(f as nat),
        Term::Ret(Some(v)) => "ret "@ + operand_text(v),
        Term::Ret(None) => "ret"@,
        Term::Unset => "<unterminated>"@,
    }
}

pub open spec fn instrs_lines(p: Program, is: Seq<Instr>) -> Seq<char>
    decreases is.len(),
{
    if is.len() == 0 {
        Seq::empty()
    } else {
        instrs_lines(p, is.drop_last()) + "    "@ + instr_line(p, is.last()) + seq!['\n']
    }
}

pub open spec fn block_lines(p: Program, b: BasicBlock, i: int) -> Seq<char> {
    "  b"@ + nat_text(i as nat) + ":"@ + seq!['\n'] + instrs_lines(p, b.instrs@) + "    "@ + term_line(b.term) + seq!['\n']
}

pub open spec fn blocks_lines(p: Program, bs: Seq<BasicBlock>) -> Seq<char>
    decreases bs.len(),
{
    if bs.len() == 0 {
        Seq::empty()
    } else {
        blocks_lines(p, bs.drop_last()) + block_lines(p, bs.last(), bs.len() - 1)
    }
}

pub open spec fn func_lines(p: Program, f: Func) -> Seq<char> {
    "fn "@ + f.name@ + "(params="@ + nat_text(f.params as nat) + ", slots="@ + nat_text(f.slots as nat) + ", temps="@
        + nat_text(f.temps as nat) + ") {"@ + seq!['\n'] + blocks_lines(p, f.blocks@) + "}"@ + seq!['\n']
}

pub open spec fn funcs_lines(p: Program, fs: Seq<Func>) -> Seq<char>
    decreases fs.len(),
{
    if fs.len() == 0 {
        Seq::empty()
    } else {
        funcs_lines(p, fs.drop_last()) + func_lines(p, fs.last())
    }
}

pub open spec fn strings_lines(ss: Seq<String>) -> Seq<char>
    decreases ss.len(),
{
    if ss.len() == 0 {
        Seq::empty()
    } else {
        strings_lines(ss.drop_last()) + "str"@ + nat_text((ss.len() - 1) as nat) + " = "@ + debug_text(ss.last()@) + seq!['\n']
    }
}

/// The whole program: its string table, then its functions.
pub open spec fn program_lines(p: Program) -> Seq<char> {
    strings_lines(p.strings@) + funcs_lines(p, p.funcs@)
}

fn push_operand(s: &mut String, o: Operand)
    ensures
        final(s)@ == old(s)@ + operand_text(o),
{
    match o {
        Operand::Temp(t) => {
            s.append("%t");
            push_nat(s, t as u64);
        },
        Operand::Const(c) => push_int(s, c),
    }
}

fn push_temp(s: &mut String, t: u32)
    ensures
        final(s)@ == old(s)@ + temp_text(t),
{
    s.append("%t");
    push_nat(s, t as u64);
}

fn push_operands(s: &mut String, os: &Vec<Operand>)
    ensures
        final(s)@ == old(s)@ + operands_text(os@),
{
    let ghost start = s@;
    let n = os.len();
    let mut k: usize = 0;
    assert(os@.skip(0) =~= os@);
    while k < n
        invariant
            n == os@.len(),
            k <= n,
            s@ + operands_text(os@.skip(k as int)) == start + operands_text(os@),
        decreases n - k,
    {
        let ghost before = s@;
        push_operand(s, os[k]);
        if k + 1 < n {
            s.append(", ");
        }
        proof {
            assert(os@.skip(k as int).drop_first() =~= os@.skip(k + 1));
            assert(os@.skip(k as int)[0] == os@[k as int]);
            if k + 1 < n {
                assert(before + operands_text(os@.skip(k as int)) =~= s@ + operands_text(os@.skip(k + 1)));
            } else {
                assert(os@.skip(k + 1) =~= Seq::<Operand>::empty());
                assert(before + operands_text(os@.skip(k as int)) =~= s@ + operands_text(os@.skip(k + 1)));
            }
        }
        k = k + 1;
    }
    proof {
        assert(os@.skip(0) =~= os@);
        assert(os@.skip(n as int) =~= Seq::<Operand>::empty());
        assert(s@ =~= start + operands_text(os@));
    }
}

fn push_instr(s: &mut String, p: &Program, ins: &Instr)
    requires
        ins matches Instr::Call { func, .. } ==> func < p.funcs@.len(),
    ensures
        final(s)@ == old(s)@ + instr_line(*p, *ins),
{
    let ghost start = s@;
    match ins {
        Instr::Load { dst, slot } => {
            push_temp(s, *dst);
            s.append(" = load s");
            push_nat(s, *slot as u64);
        },
        Instr::Store { slot, src } => {
            s.append("store s");
            push_nat(s, *slot as u64);
            s.append(", ");
            push_operand(s, *src);
        },
        Instr::Bin { dst, op, a, b } => {
            push_temp(s, *dst);
            s.append(" = ");
            s.append(op.text());
            s.append(" ");
            push_operand(s, *a);
            s.append(", ");
            push_operand(s, *b);
        },
        Instr::Neg { dst, a } => {
            push_temp(s, *dst);
            s.append(" = neg ");
            push_operand(s, *a);
        },
        Instr::Not { dst, a } => {
            push_temp(s, *dst);
            s.append(" = not ");
            push_operand(s, *a);
        },
        Instr::Call { dst, func, args } => {
            match dst {
                Some(d) => {
                    push_temp(s, *d);
                    s.append(" = ");
                },
                None => {},
            }
            s.append("call ");
            s.append(p.funcs[*func].name.as_str());
            s.append("(");
            push_operands(s, args);
            s.append(")");
        },
        Instr::PrintInt(v) => {
            s.append("print.int ");
            push_operand(s, *v);
        },
        Instr::PrintBool(v) => {
            s.append("print.bool ");
            push_operand(s, *v);
        },
        Instr::PrintStr(i) => {
            s.append("print.str str");
            push_nat(s, *i as u64);
        },
    }
    assert(s@ =~= start + instr_line(*p, *ins));
}

fn push_term(s: &mut String, t: Term)
    ensures
        final(s)@ == old(s)@ + term_line(t),
{
    let ghost start = s@;
    match t {
        Term::Jmp(b) => {
            s.append("jmp b");
            push_nat(s, b as u64);
        },
        Term::Br { cond, t, f } => {
            s.append("br ");
            push_operand(s, cond);
            s.append(", b");
            push_nat(s, t as u64);
            s.append(", b");
            push_nat(s, f as u64);
        },
        Term::Ret(Some(v)) => {
            s.append("ret ");
            push_operand(s, v);
        },
        Term::Ret(None) => s.append("ret"),
        Term::Unset => s.append("<unterminated>"),
    }
    assert(s@ =~= start + term_line(t));
}

fn push_block(s: &mut String, p: &Program, f: usize, b: usize)
    requires
        calls_in_range(*p),
        f < p.funcs@.len(),
        b < p.funcs@[f as int].blocks@.len(),
    ensures
        final(s)@ == old(s)@ + block_lines(*p, p.funcs@[f as int].blocks@[b as int], b as int),
{
    let ghost start = s@;
    let blk = &p.funcs[f].blocks[b];
    s.append("  b");
    push_nat(s, b as u64);
    s.append(":");
    push_char(s, '\n');
    let ghost head = s@;
    let mut k: usize = 0;
    assert(blk.instrs@.take(0) =~= Seq::<Instr>::empty());
    while k < blk.instrs.len()
        invariant
            k <= blk.instrs@.len(),
            calls_in_range(*p),
            f < p.funcs@.len(),
            b < p.funcs@[f as int].blocks@.len(),
            *blk == p.funcs@[f as int].blocks@[b as int],
            s@ == head + instrs_lines(*p, blk.instrs@.take(k as int)),
        decreases blk.instrs@.len() - k,
    {
        assert(p.funcs@[f as int].blocks@[b as int].instrs@[k as int] == blk.instrs@[k as int]);
        s.append("    ");
        push_instr(s, p, &blk.instrs[k]);
        push_char(s, '\n');
        proof {
            assert(blk.instrs@.take(k + 1).drop_last() =~= blk.instrs@.take(k as int));
            assert(blk.instrs@.take(k + 1).last() == blk.instrs@[k as int]);
            assert(s@ =~= head + instrs_lines(*p, blk.instrs@.take(k + 1)));
        }
        k = k + 1;
    }
    assert(blk.instrs@.take(k as int) =~= blk.instrs@);
    s.append("    ");
    push_term(s, blk.term);
    push_char(s, '\n');
    assert(s@ =~= start + block_lines(*p, p.funcs@[f as int].blocks@[b as int], b as int));
}

fn push_func(s: &mut String, p: &Program, f: usize)
    requires
        calls_in_range(*p),
        f < p.funcs@.len(),
    ensures
        final(s)@ == old(s)@ + func_lines(*p, p.funcs@[f as int]),
{
    let ghost start = s@;
    let func = &p.funcs[f];
    s.append("fn ");
    s.append(func.name.as_str());
    s.append("(params=");
    push_nat(s, func.params as u64);
    s.append(", slots=");
    push_nat(s, func.slots as u64);
    s.append(", temps=");
    push_nat(s, func.temps as u64);
    s.append(") {");
    push_char(s, '\n');
    let ghost head = s@;
    let mut b: usize = 0;
    assert(func.blocks@.take(0) =~= Seq::<BasicBlock>::empty());
    while b < func.blocks.len()
        invariant
            b <= func.blocks@.len(),
            calls_in_range(*p),
            f < p.funcs@.len(),
            *func == p.funcs@[f as int],
            s@ == head + blocks_lines(*p, func.blocks@.take(b as int)),
        decreases func.blocks@.len() - b,
    {
        push_block(s, p, f, b);
        proof {
            assert(func.blocks@.take(b + 1).drop_last() =~= func.blocks@.take(b as int));
            assert(func.blocks@.take(b + 1).last() == func.blocks@[b as int]);
            assert(func.blocks@.take(b + 1).len() - 1 == b);
            assert(s@ =~= head + blocks_lines(*p, func.blocks@.take(b + 1)));
        }
        b = b + 1;
    }
    assert(func.blocks@.take(b as int) =~= func.blocks@);
    s.append("}");
    push_char(s, '\n');
    assert(s@ =~= start + func_lines(*p, p.funcs@[f as int]));
}

/// Prints a program: its string table, then each function with its blocks.
pub fn dump(p: &Program) -> (s: String)
    requires
        calls_in_range(*p),
    ensures
        s@ == program_lines(*p),
{
    let mut s = String::new();
    let mut i: usize = 0;
    assert(p.strings@.take(0) =~= Seq::<String>::empty());
    while i < p.strings.len()
        invariant
            i <= p.strings@.len(),
            s@ == strings_lines(p.strings@.take(i as int)),
        decreases p.strings@.len() - i,
    {
        s.append("str");
        push_nat(&mut s, i as u64);
        s.append(" = ");
        let q = debug_str(p.strings[i].as_str());
        s.append(q.as_str());
        push_char(&mut s, '\n');
        proof {
            assert(p.strings@.take(i + 1).drop_last() =~= p.strings@.take(i as int));
            assert(p.strings@.take(i + 1).last() == p.strings@[i as int]);
        }
        i = i + 1;
    }
    assert(p.strings@.take(i as int) =~= p.strings@);
    let ghost head = s@;
    let mut f: usize = 0;
    assert(p.funcs@.take(0) =~= Seq::<Func>::empty());
    while f < p.funcs.len()
        invariant
            f <= p.funcs@.len(),
            calls_in_range(*p),
            s@ == head + funcs_lines(*p, p.funcs@.take(f as int)),
        decreases p.funcs@.len() - f,
    {
        push_func(&mut s, p, f);
        proof {
            assert(p.funcs@.take(f + 1).drop_last() =~= p.funcs@.take(f as int));
            assert(p.funcs@.take(f + 1).last() == p.funcs@[f as int]);
            assert(s@ =~= head + funcs_lines(*p, p.funcs@.take(f + 1)));
        }
        f = f + 1;
    }
    assert(p.funcs@.take(f as int) =~= p.funcs@);
    s
}

} // verus!
