//! Tests of the library's promises on concrete programs: the arithmetic
//! of `eval`, the interpreter's traps and limits, the printers, the code
//! generator's text, diagnostics rendering, and the front end's tables.

use bellows::codegen::{Target, generate};
use bellows::diag::{Source, Span};
use bellows::ir::{Interp, Op, Trap, eval};
use bellows::lexer::{Tok, lex};
use bellows::opt::{Stats, optimize};
use bellows::parser::{Block, Expr, ExprKind, StmtKind, dump, dump_expr, parse};
use bellows::sema::check;
use bellows::{Options, compile, render};

fn unit(src: &str, optimize: bool) -> bellows::Unit {
    compile(
        src,
        "t.ash",
        Options {
            optimize,
            ..Default::default()
        },
    )
    .unwrap()
}

fn run_limited(p: &bellows::ir::Program, steps: u64, depth: usize) -> (Result<(), Trap>, String, u64) {
    let mut out = Vec::new();
    let mut i = Interp::new(p, &mut out);
    i.max_steps = steps;
    i.max_depth = depth;
    let r = i.run();
    let n = i.steps;
    (r, String::from_utf8(out).unwrap(), n)
}

#[test]
fn eval_truncates_division_and_traps() {
    assert_eq!(eval(Op::Add, 2, 3), Ok(5));
    assert_eq!(eval(Op::Sub, 2, 3), Ok(-1));
    assert_eq!(eval(Op::Mul, -4, 3), Ok(-12));
    assert_eq!(eval(Op::Div, -7, 2), Ok(-3));
    assert_eq!(eval(Op::Rem, -7, 2), Ok(-1));
    assert_eq!(eval(Op::Rem, 7, -2), Ok(1));
    assert_eq!(eval(Op::Div, 1, 0), Err(Trap::DivideByZero));
    assert_eq!(eval(Op::Rem, 1, 0), Err(Trap::DivideByZero));
    assert_eq!(eval(Op::Div, i64::MIN, -1), Err(Trap::Overflow));
    assert_eq!(eval(Op::Rem, i64::MIN, -1), Err(Trap::Overflow));
    assert_eq!(eval(Op::Add, i64::MAX, 1), Err(Trap::Overflow));
    assert_eq!(eval(Op::Mul, i64::MAX, 2), Err(Trap::Overflow));
    assert_eq!(eval(Op::Lt, 1, 2), Ok(1));
    assert_eq!(eval(Op::Ge, 1, 2), Ok(0));
    assert_eq!(eval(Op::Eq, 5, 5), Ok(1));
    assert_eq!(eval(Op::Ne, 5, 5), Ok(0));
}

#[test]
fn trap_messages() {
    assert_eq!(Trap::DivideByZero.text(), "division by zero");
    assert_eq!(Trap::Overflow.text(), "integer overflow");
    assert_eq!(Trap::StackOverflow.text(), "stack overflow (call depth limit)");
    assert_eq!(Trap::StepLimit.text(), "step limit reached");
    assert_eq!(Trap::Io.text(), "write failed");
}

#[test]
fn interpreter_prints_and_traps_like_the_language() {
    let u = unit("fn main() { print(1 + 2); print(3 < 4); print(\"hi\"); print(-5); }", false);
    let (r, out, _) = run_limited(&u.ir, u64::MAX, 100);
    assert_eq!(r, Ok(()));
    assert_eq!(out, "3\ntrue\nhi\n-5\n");
    let u = unit("fn main() { let z = 0; print(1); print(10 / z); print(2); }", false);
    let (r, out, _) = run_limited(&u.ir, u64::MAX, 100);
    assert_eq!(r, Err(Trap::DivideByZero));
    assert_eq!(out, "1\n");
    let u = unit("fn main() { let z = 0; print(10 % z); }", true);
    assert_eq!(run_limited(&u.ir, u64::MAX, 100).0, Err(Trap::DivideByZero));
    let u = unit("fn main() { let m = -9223372036854775807 - 1; print(-m); }", false);
    assert_eq!(run_limited(&u.ir, u64::MAX, 100).0, Err(Trap::Overflow));
}

#[test]
fn interpreter_limits_steps_and_depth() {
    let u = unit("fn main() { while true { } }", false);
    let (r, _, steps) = run_limited(&u.ir, 1000, 100);
    assert_eq!(r, Err(Trap::StepLimit));
    assert_eq!(steps, 1000);
    let u = unit("fn f(n: i64) -> i64 { return f(n + 1); } fn main() { print(f(0)); }", false);
    assert_eq!(run_limited(&u.ir, u64::MAX, 50).0, Err(Trap::StackOverflow));
    let u = unit("fn main() { print(1); }", false);
    // main's print and its return: two steps.
    let (r, out, steps) = run_limited(&u.ir, u64::MAX, 100);
    assert_eq!((r, out.as_str(), steps), (Ok(()), "1\n", 2));
    // With one step allowed, the print runs and the return is refused.
    let (r, out, _) = run_limited(&u.ir, 1, 100);
    assert_eq!((r, out.as_str()), (Err(Trap::StepLimit), "1\n"));
}

#[test]
fn optimizer_keeps_functions_and_output() {
    let src = "fn sq(x: i64) -> i64 { let y = x * 1 + 0; return y * y; } fn main() { let a = 3; print(sq(a)); if a > 2 { print(a); } }";
    let u0 = unit(src, false);
    let u1 = unit(src, true);
    assert_eq!(u0.ir.funcs.len(), u1.ir.funcs.len());
    for (f0, f1) in u0.ir.funcs.iter().zip(u1.ir.funcs.iter()) {
        assert_eq!(
            (&f0.name, f0.params, f0.slots, f0.temps, f0.returns_value),
            (&f1.name, f1.params, f1.slots, f1.temps, f1.returns_value)
        );
    }
    assert_eq!(u0.ir.main, u1.ir.main);
    let (r0, o0, _) = run_limited(&u0.ir, u64::MAX, 100);
    let (r1, o1, _) = run_limited(&u1.ir, u64::MAX, 100);
    assert_eq!((r0, o0.as_str()), (Ok(()), "9\n3\n"));
    assert_eq!((r1, o1.as_str()), (Ok(()), "9\n3\n"));
    assert_eq!(u0.stats, Stats::default());
    let mut p = u0.ir.clone();
    let stats = optimize(&mut p);
    assert!(stats.folded >= 2);
    assert_eq!(run_limited(&p, u64::MAX, 100).1, "9\n3\n");
}

#[test]
fn lowering_follows_the_declarations() {
    let u = unit("fn a(x: i64, y: bool) -> i64 { return x; } fn b() { } fn main() { print(a(1, true)); b(); }", false);
    let names: Vec<&str> = u.ir.funcs.iter().map(|f| f.name.as_str()).collect();
    assert_eq!(names, vec!["a", "b", "main"]);
    assert_eq!(u.ir.main, 2);
    assert_eq!(u.ir.funcs[0].params, 2);
    assert!(u.ir.funcs[0].returns_value);
    assert!(!u.ir.funcs[1].returns_value);
    assert!(u.ir.funcs[0].slots >= u.ir.funcs[0].params);
}

#[test]
fn parse_gives_every_expression_an_id_below_the_count() {
    fn walk(e: &Expr, n: usize, seen: &mut Vec<usize>) {
        assert!(e.id < n);
        seen.push(e.id);
        match &e.kind {
            ExprKind::Unary(_, x) => walk(x, n, seen),
            ExprKind::Binary(_, a, b) => {
                walk(a, n, seen);
                walk(b, n, seen);
            }
            ExprKind::Call(_, args) => args.iter().for_each(|a| walk(a, n, seen)),
            _ => {}
        }
    }
    fn block(b: &Block, n: usize, seen: &mut Vec<usize>) {
        for s in &b.stmts {
            match &s.kind {
                StmtKind::Let { init, .. } => walk(init, n, seen),
                StmtKind::Assign { value, .. } => walk(value, n, seen),
                StmtKind::Expr(e) | StmtKind::Print(e) => walk(e, n, seen),
                StmtKind::Return(v) => {
                    if let Some(e) = v {
                        walk(e, n, seen)
                    }
                }
                StmtKind::If { cond, then, els } => {
                    walk(cond, n, seen);
                    block(then, n, seen);
                    if let Some(e) = els {
                        block(e, n, seen);
                    }
                }
                StmtKind::While { cond, body } => {
                    walk(cond, n, seen);
                    block(body, n, seen);
                }
            }
        }
    }
    let toks = lex("fn f(a: i64) -> i64 { return -a * (a + 2); } fn main() { let mut i = 0; while i < 3 && !false { print(f(i)); i = i + 1; } if true { } else if 1 == 2 { print(0); } }").unwrap();
    assert_eq!(toks.last().unwrap().tok, Tok::Eof);
    let p = parse(&toks).unwrap();
    let mut seen = Vec::new();
    for f in &p.funcs {
        block(&f.body, p.expr_count, &mut seen);
    }
    seen.sort();
    seen.dedup();
    assert_eq!(seen.len(), p.expr_count);
    let typed = check(&p).unwrap();
    assert_eq!(typed.expr_types.len(), p.expr_count);
    assert_eq!(typed.fn_index, vec![("f".to_string(), 0), ("main".to_string(), 1)]);
}

#[test]
fn ast_printer_shows_structure() {
    let toks = lex("fn f(a: i64, b: bool) -> i64 { let mut x: i64 = (a + 1) * 2; if b { return x; } else { return -x; } } fn main() { print(\"q\"); f(1, true); }").unwrap();
    let p = parse(&toks).unwrap();
    assert_eq!(
        dump(&p),
        "fn f(a: i64, b: bool) -> i64\n  let mut x: i64 = ((a + 1) * 2)\n  if b\n    return x\n  else\n    return (-x)\nfn main() -> ()\n  print \"q\"\n  f(1, true)\n"
    );
    let toks = lex("fn main() { let y = g(1, 2 < 3, !true); }").unwrap();
    let p = parse(&toks).unwrap();
    let StmtKind::Let { init, .. } = &p.funcs[0].body.stmts[0].kind else {
        panic!("expected a let")
    };
    assert_eq!(dump_expr(init), "g(1, (2 < 3), (!true))");
}

#[test]
fn ir_printer_shows_strings_blocks_and_instructions() {
    let u = unit("fn main() { print(\"a\\tb\"); let x = 2; print(x + 1); }", false);
    assert_eq!(
        bellows::ir::dump(&u.ir),
        "str0 = \"a\\tb\"\nfn main(params=0, slots=1, temps=2) {\n  b0:\n    print.str str0\n    store s0, 2\n    %t0 = load s0\n    %t1 = add %t0, 1\n    print.int %t1\n    ret\n}\n"
    );
}

#[test]
fn codegen_emits_the_expected_assembly() {
    let u = unit("fn main() { }", false);
    let s = generate(&u.ir, Target::Linux, None);
    assert!(s.starts_with(
        "# generated by bellows — target x86_64-linux (System V)\n    .text\n    .type ash_main, @function\nash_main:\n    pushq %rbp\n    movq %rsp, %rbp\n.Lmain_b0:\n    xorl %eax, %eax\n    movq %rbp, %rsp\n    popq %rbp\n    ret\n    .size ash_main, .-ash_main\n\n    .globl main\n"
    ), "{s}");
    assert!(s.ends_with("    .section .note.GNU-stack,\"\",@progbits\n"), "{s}");
    let w = generate(&u.ir, Target::Windows, Some("dir\\x.ash"));
    assert!(w.starts_with("# generated by bellows — target x86_64-windows (MS x64)\n    .file 1 \"dir/x.ash\"\n"), "{w}");
    assert!(w.contains("    subq $32, %rsp\n"));
    assert!(!w.contains("GNU-stack"));
    let u = unit("fn main() { print(\"q\\\"\\\\\\n\"); let a = 5000000000; print(a / 3); }", false);
    let s = generate(&u.ir, Target::Linux, None);
    assert!(s.contains(".Lstr0:\n    .asciz \"q\\\"\\\\\\n\"\n"), "{s}");
    assert!(s.contains("movabsq $5000000000, %rax"), "{s}");
    assert!(s.contains("    jne .Lmain_div0_"), "{s}");
    assert_eq!(u.assembly, s);
}

#[test]
fn targets_by_name() {
    assert_eq!(Target::parse("linux"), Some(Target::Linux));
    assert_eq!(Target::parse("linux-x86_64"), Some(Target::Linux));
    assert_eq!(Target::parse("windows"), Some(Target::Windows));
    assert_eq!(Target::parse("mingw"), Some(Target::Windows));
    assert_eq!(Target::parse("macos"), None);
}

#[test]
fn rendering_is_exact() {
    let src = "fn main() {\n    let x: bool = 3;\n}\n";
    let d = compile(src, "examples/bad.ash", Options::default()).unwrap_err();
    assert_eq!(
        render(src, "examples/bad.ash", &d, false),
        "error[E011]: type mismatch: `x` is declared `bool` but initialised with `i64`\n  --> examples/bad.ash:2:19\n   |\n 2 |     let x: bool = 3;\n   |                   ^ this has type `i64`\n"
    );
    let d = compile("fn main() { let x = 1; x = 2; }", "t.ash", Options::default()).unwrap_err();
    let text = render("fn main() { let x = 1; x = 2; }", "t.ash", &d, false);
    assert!(text.ends_with("  = note: declare it with `let mut x` to allow assignment\n"), "{text}");
    assert_eq!(d.summary(), "error[E012]: cannot assign twice to immutable variable `x`");
}

#[test]
fn positions_and_lines() {
    let s = Source::new("t", "ab\ncé\r\nx");
    assert_eq!(s.position(0), (1, 1));
    assert_eq!(s.position(3), (2, 1));
    assert_eq!(s.position(6), (2, 3));
    assert_eq!(s.position(100), (3, 2));
    assert_eq!(s.line_count(), 3);
    assert_eq!(s.line_text(2), "cé");
    assert_eq!(Span::new(3, 5).to(Span::new(1, 4)), Span::new(1, 5));
}

#[test]
fn tokens_describe_themselves() {
    let toks = lex("let x = 12; // c\n \"s\" ->").unwrap();
    let kinds: Vec<String> = toks.iter().map(|t| t.tok.describe()).collect();
    assert_eq!(kinds.len(), 8);
    assert_eq!(toks[3].tok, Tok::Int(12));
    assert_eq!(toks[5].tok, Tok::Str("s".to_string()));
    assert_eq!(Tok::Arrow.text(), "->");
    assert_eq!(toks[7].tok, Tok::Eof);
}

#[test]
fn compile_reports_the_first_error_of_each_stage() {
    let e = compile("fn main() { let x = 1 $ 2; }", "t.ash", Options::default()).unwrap_err();
    assert_eq!(e.code, "E001");
    let e = compile("fn main() { let x = ; }", "t.ash", Options::default()).unwrap_err();
    assert_eq!(e.code, "E002");
    let e = compile("fn main() { print(y); }", "t.ash", Options::default()).unwrap_err();
    assert_eq!(e.code, "E010");
    let e = compile("fn print() {} fn main() {}", "t.ash", Options::default()).unwrap_err();
    assert_eq!((e.code, e.message.as_str()), ("E016", "`print` is a builtin and cannot be redefined"));
}
