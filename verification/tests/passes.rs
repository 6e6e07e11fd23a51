//! What the optimizer keeps of a run, on IR built by hand: each pass's
//! program prints the same and ends the same way, in no more steps.

use bellows::ir::{BasicBlock, Func, Instr, Interp, Op, Operand, Program, Term, Trap};
use bellows::opt::optimize;

fn block(instrs: Vec<Instr>, term: Term) -> BasicBlock {
    BasicBlock { instrs, term, line: 0 }
}

fn program(blocks: Vec<BasicBlock>, temps: u32, slots: u32) -> Program {
    Program {
        funcs: vec![Func {
            name: "main".to_string(),
            params: 0,
            slots,
            temps,
            blocks,
            returns_value: false,
        }],
        strings: vec![],
        main: 0,
    }
}

fn run(p: &Program) -> (Result<(), Trap>, String, u64) {
    let mut out = Vec::new();
    let mut i = Interp::new(p, &mut out);
    let r = i.run();
    let n = i.steps;
    (r, String::from_utf8(out).unwrap(), n)
}

fn optimized(p: &Program) -> Program {
    let mut q = p.clone();
    optimize(&mut q);
    q
}

#[test]
fn threading_and_merging_keep_output_with_fewer_steps() {
    // b0: jmp b1 (empty entry), b1: print 1; jmp b2, b2: jmp b3, b3: print 2; ret
    let p = program(
        vec![
            block(vec![], Term::Jmp(1)),
            block(vec![Instr::PrintInt(Operand::Const(1))], Term::Jmp(2)),
            block(vec![], Term::Jmp(3)),
            block(vec![Instr::PrintInt(Operand::Const(2))], Term::Ret(None)),
        ],
        0,
        0,
    );
    let (r0, o0, s0) = run(&p);
    assert_eq!((r0, o0.as_str(), s0), (Ok(()), "1\n2\n", 6));
    let q = optimized(&p);
    let (r1, o1, s1) = run(&q);
    assert_eq!((r1, o1.as_str()), (Ok(()), "1\n2\n"));
    assert_eq!(s1, 3);
    assert_eq!(q.funcs[0].blocks.len(), 1);
}

#[test]
fn unreachable_blocks_go_and_runs_stay_the_same() {
    // b1 is never entered; b2 is reached from the entry.
    let p = program(
        vec![
            block(vec![Instr::PrintInt(Operand::Const(7))], Term::Ret(None)),
            block(vec![Instr::PrintInt(Operand::Const(8))], Term::Ret(None)),
        ],
        0,
        0,
    );
    let q = optimized(&p);
    assert_eq!(q.funcs[0].blocks.len(), 1);
    assert_eq!(run(&p), run(&q));
    assert_eq!(run(&q), (Ok(()), "7\n".to_string(), 2));
}

#[test]
fn dead_temps_and_stores_go_and_output_stays() {
    // %t0 = load s0 (never read); store s1, 5 (s1 never loaded); %t1 = lt 1, 2 (never read)
    let p = program(
        vec![block(
            vec![
                Instr::Load { dst: 0, slot: 0 },
                Instr::Store { slot: 1, src: Operand::Const(5) },
                Instr::Bin { dst: 1, op: Op::Lt, a: Operand::Temp(0), b: Operand::Const(2) },
                Instr::PrintInt(Operand::Const(3)),
            ],
            Term::Ret(None),
        )],
        2,
        2,
    );
    let (r0, o0, s0) = run(&p);
    assert_eq!((r0, o0.as_str(), s0), (Ok(()), "3\n", 5));
    let q = optimized(&p);
    assert_eq!(q.funcs[0].blocks[0].instrs, vec![Instr::PrintInt(Operand::Const(3))]);
    assert_eq!(run(&q), (Ok(()), "3\n".to_string(), 2));
}

#[test]
fn an_unread_division_still_traps() {
    // %t0 = div 1, 0 is never read but may trap, so it stays.
    let p = program(
        vec![block(
            vec![Instr::Bin { dst: 0, op: Op::Div, a: Operand::Const(1), b: Operand::Const(0) }],
            Term::Ret(None),
        )],
        1,
        0,
    );
    let q = optimized(&p);
    assert_eq!(run(&p).0, Err(Trap::DivideByZero));
    assert_eq!(run(&q).0, Err(Trap::DivideByZero));
}

#[test]
fn an_unread_overflowing_addition_still_traps() {
    // %t1 = add %t0, 1 with %t0 = i64::MAX overflows; its result is never
    // read, but an instruction that may trap is never taken out.
    let p = program(
        vec![block(
            vec![
                Instr::Store { slot: 0, src: Operand::Const(i64::MAX) },
                Instr::Load { dst: 0, slot: 0 },
                Instr::Bin { dst: 1, op: Op::Add, a: Operand::Temp(0), b: Operand::Const(1) },
                Instr::PrintInt(Operand::Const(4)),
            ],
            Term::Ret(None),
        )],
        2,
        1,
    );
    assert_eq!(run(&p).0, Err(Trap::Overflow));
    let q = optimized(&p);
    assert_eq!(run(&q).0, Err(Trap::Overflow));
    assert_eq!(run(&q).1, "");
}

#[test]
fn a_branch_on_a_constant_becomes_a_jump() {
    let p = program(
        vec![
            block(vec![], Term::Br { cond: Operand::Const(0), t: 1, f: 2 }),
            block(vec![Instr::PrintInt(Operand::Const(1))], Term::Ret(None)),
            block(vec![Instr::PrintInt(Operand::Const(2))], Term::Ret(None)),
        ],
        0,
        0,
    );
    let q = optimized(&p);
    assert_eq!(run(&p).1, "2\n");
    assert_eq!(run(&q).1, "2\n");
    assert!(run(&q).2 <= run(&p).2);
    assert!(q.funcs[0].blocks.iter().all(|b| !matches!(b.term, Term::Br { .. })));
}

fn written(p: &Program) -> Vec<Vec<u32>> {
    p.funcs
        .iter()
        .map(|f| {
            f.blocks
                .iter()
                .flat_map(|b| &b.instrs)
                .filter_map(|i| match i {
                    Instr::Load { dst, .. } | Instr::Bin { dst, .. } | Instr::Neg { dst, .. } | Instr::Not { dst, .. } => Some(*dst),
                    Instr::Call { dst, .. } => *dst,
                    _ => None,
                })
                .collect()
        })
        .collect()
}

fn all_distinct(v: &[u32]) -> bool {
    let mut w = v.to_vec();
    w.sort();
    w.windows(2).all(|p| p[0] != p[1])
}

#[test]
fn every_temp_is_written_once_before_and_after_optimizing() {
    let src = "fn f(a: i64, b: bool) -> i64 { if b && a > 0 || a < -5 { return a * 2 + 0; } return -a; }
fn main() { let mut i = 0; while i < 3 { print(f(i, i % 2 == 0)); i = i + 1; } }";
    for optimize in [false, true] {
        let u = bellows::compile(src, "t.ash", bellows::Options { optimize, ..Default::default() }).unwrap();
        for ws in written(&u.ir) {
            assert!(all_distinct(&ws), "{}", bellows::ir::dump(&u.ir));
        }
        // no block of a freshly lowered function jumps back to its entry
        if !optimize {
            for f in &u.ir.funcs {
                for b in &f.blocks {
                    match b.term {
                        Term::Jmp(x) => assert_ne!(x, 0),
                        Term::Br { t, f, .. } => assert!(t != 0 && f != 0),
                        _ => {},
                    }
                }
            }
        }
        assert_eq!(run(&u.ir).1, "0\n-1\n4\n");
    }
}

#[test]
fn a_long_copy_chain_keeps_its_value() {
    let mut src = String::from("fn main() {\n    let v0: i64 = 7;\n");
    for i in 1..=70 {
        src.push_str(&format!("    let v{}: i64 = v{};\n", i, i - 1));
    }
    src.push_str("    print(v70);\n}\n");
    for optimize in [false, true] {
        let u = bellows::compile(&src, "t.ash", bellows::Options { optimize, ..Default::default() }).unwrap();
        assert_eq!(run(&u.ir), (Ok(()), "7\n".to_string(), run(&u.ir).2));
    }
}


#[test]
fn the_entry_block_takes_the_line_of_the_first_statement() {
    let src = "fn main()\n{\n    print(1);\n}\n";
    let u = bellows::compile(src, "t.ash", bellows::Options { optimize: false, ..Default::default() }).unwrap();
    assert_eq!(u.ir.funcs[0].blocks[0].line, 3);
}

#[test]
fn optimizing_twice_changes_nothing_more() {
    let src = "fn f(x: i64) -> i64 { let y = x + 0; if 1 < 2 { return y * 1; } return 0; }
fn main() { let a = 5; let b = a; print(f(b)); }";
    let u = bellows::compile(src, "t.ash", bellows::Options { optimize: true, ..Default::default() }).unwrap();
    let mut again = u.ir.clone();
    let stats = optimize(&mut again);
    assert_eq!(stats, bellows::opt::Stats::default());
    assert_eq!(again, u.ir);
    let plain = bellows::compile(src, "t.ash", bellows::Options { optimize: false, ..Default::default() }).unwrap();
    let count = |p: &Program| p.funcs.iter().flat_map(|f| &f.blocks).map(|b| b.instrs.len()).sum::<usize>();
    assert!(count(&u.ir) <= count(&plain.ir));
    assert_eq!(run(&u.ir).1, run(&plain.ir).1);
}
