//! Bellows: an optimizing compiler for the Ash language.
//!
//! Pipeline: lexer, parser, semantic analysis, lowering to a three-address
//! IR, optimizer, and x86-64 code generation. The IR also has an
//! interpreter, which is the reference semantics of compiled programs.

use vstd::prelude::*;
use vstd::string::*;

pub mod text;
pub mod diag;
pub mod ir;
pub mod lexer;
pub mod parser;
pub mod sema;
pub mod opt;
pub mod codegen;

use crate::codegen::{Target, asm_text};
use crate::diag::{DiagV, Diagnostic, Source, Span, diag_v, render_text};
use crate::ir::{all_written, entry_never_entered, ir_wf, writes_once};
use crate::lexer::{Token, TokenV, lemma_lex_shape, lex_result_view, spec_lex, tokens_view};
use crate::parser::{ProgramV, Ty, lemma_parse_size, spec_parse, tokens_wf};
use crate::sema::{find_fn, lemma_check_ok, spec_check};

verus! {

/// How to compile.
#[derive(Debug, Clone, Copy)]
pub struct Options {
    pub optimize: bool,
    pub target: Target,
    /// Emit DWARF line info (`.loc`) naming the source file.
    pub debug: bool,
}

impl Default for Options {
    /// Optimized, for Linux, without line information.
    fn default() -> (o: Options)
        ensures
            o.optimize,
            o.target == Target::Linux,
            !o.debug,
    {
        Options { optimize: true, target: Target::Linux, debug: false }
    }
}

/// Everything the pipeline produced for one source file.
#[derive(Debug)]
pub struct Unit {
    pub tokens: Vec<Token>,
    pub ast: parser::Program,
    pub ir: ir::Program,
    pub stats: opt::Stats,
    pub assembly: String,
}

/// The first diagnostic of lexing, parsing or checking `src`, if any.
pub open spec fn front_error(src: Seq<u8>) -> Option<DiagV> {
    match spec_lex(src) {
        Err(d) => Some(d),
        Ok(ts) => match spec_parse(ts) {
            Err(d) => Some(d),
            Ok(p) => match spec_check(p) {
                Err(d) => Some(d),
                Ok(_) => None,
            },
        },
    }
}

/// The tokens of an accepted source.
pub open spec fn tokens_of(src: Seq<u8>) -> Seq<TokenV> {
    spec_lex(src)->Ok_0
}

/// The syntax tree of an accepted source.
pub open spec fn ast_of(src: Seq<u8>) -> ProgramV {
    spec_parse(tokens_of(src))->Ok_0
}

/// The largest source, in bytes, that the compiler takes, plus one: every
/// position, line and count then fits the IR's 32-bit numbering.
pub const MAX_SOURCE: usize = 0x3fff_ffff;

/// The diagnostic for a source of `MAX_SOURCE` bytes or more.
pub open spec fn too_large() -> DiagV {
    diag_v("E001"@, Span { start: 0, end: 0 }, "source file too large"@)
}

/// Runs the whole pipeline. A source of `MAX_SOURCE` bytes or more is
/// refused with an error. Returns the first diagnostic on failure; on
/// success, the tokens, the tree, a well-formed IR with one function per
/// declaration (optimized when asked) whose temps are each written by at
/// most one instruction and whose blocks never jump back to the entry,
/// what the optimizer did, and the assembly of the IR.
#[verifier::rlimit(100)]
pub fn compile(src: &str, name: &str, opts: Options) -> (r: Result<Unit, Diagnostic>)
    ensures
        src.spec_bytes().len() >= MAX_SOURCE ==> (r is Err && r->Err_0@ == too_large()),
        src.spec_bytes().len() < MAX_SOURCE ==> match r {
            Err(d) => front_error(src.spec_bytes()) == Some(d@),
            Ok(u) => {
                &&& front_error(src.spec_bytes()) is None
                &&& tokens_view(u.tokens@) == tokens_of(src.spec_bytes())
                &&& u.ast@ == ast_of(src.spec_bytes())
                &&& ir_wf(u.ir)
                &&& u.ir.funcs@.len() == u.ast.funcs@.len()
                &&& u.ir.main == find_fn(u.ast@.funcs, "main"@)->0
                &&& forall|i: int|
                    0 <= i < u.ir.funcs@.len() ==> {
                        &&& (#[trigger] u.ir.funcs@[i]).name@ == u.ast@.funcs[i].name
                        &&& u.ir.funcs@[i].params == u.ast@.funcs[i].params.len()
                        &&& u.ir.funcs@[i].returns_value == (u.ast@.funcs[i].ret != Ty::Unit)
                    }
                &&& u.assembly@ == asm_text(u.ir, opts.target, if opts.debug { Some(name@) } else { None })
                &&& !opts.optimize ==> u.stats == opt::Stats::default_value()
                &&& forall|i: int| 0 <= i < u.ir.funcs@.len() ==> writes_once((#[trigger] u.ir.funcs@[i]).blocks@)
                &&& forall|i: int| 0 <= i < u.ir.funcs@.len() ==> entry_never_entered(#[trigger] u.ir.funcs@[i])
                &&& !opts.optimize ==> forall|i: int|
                    0 <= i < u.ir.funcs@.len() ==> all_written((#[trigger] u.ir.funcs@[i]).blocks@, u.ir.funcs@[i].temps as int)
                &&& opts.optimize && opt::counters_below_max(u.stats) ==> forall|i: int|
                    0 <= i < u.ir.funcs@.len() ==> opt::optimized(#[trigger] u.ir.funcs@[i])
            },
        },
{
    if crate::text::str_len(src) >= MAX_SOURCE {
        return Err(Diagnostic::new("E001", Span::new(0, 0), String::from_str("source file too large")));
    }
    let source = Source::new(name, src);
    let tokens = match lexer::lex(src) {
        Ok(t) => t,
        Err(d) => {
            return Err(d);
        },
    };
    let ghost b = src.spec_bytes();
    proof {
        lemma_lex_shape(b);
    }
    let ast = match parser::parse(&tokens) {
        Ok(a) => a,
        Err(d) => {
            return Err(d);
        },
    };
    let typed = match sema::check(&ast) {
        Ok(t) => t,
        Err(d) => {
            return Err(d);
        },
    };
    proof {
        lemma_check_ok(ast@);
        lemma_parse_size(tokens_view(tokens@));
    }
    let line_of = |off: usize| -> (l: u32) { source.position(off).0 as u32 };
    let mut ir = ir::lower(&ast, &typed, &line_of);
    let ghost lowered = ir;
    let stats = if opts.optimize {
        opt::optimize(&mut ir)
    } else {
        opt::Stats::default()
    };
    let assembly = codegen::generate(&ir, opts.target, if opts.debug { Some(name) } else { None });
    proof {
        assert forall|i: int| 0 <= i < ir.funcs@.len() implies {
            &&& (#[trigger] ir.funcs@[i]).name@ == ast@.funcs[i].name
            &&& ir.funcs@[i].params == ast@.funcs[i].params.len()
            &&& ir.funcs@[i].returns_value == (ast@.funcs[i].ret != Ty::Unit)
        } by {
            if opts.optimize {
                assert(opt::same_header(ir.funcs@[i], lowered.funcs@[i]));
            }
            assert(lowered.funcs@[i].name@ == ast@.funcs[i].name);
        }
        assert forall|i: int| 0 <= i < ir.funcs@.len() implies writes_once((#[trigger] ir.funcs@[i]).blocks@) by {
            assert(writes_once(lowered.funcs@[i].blocks@));
        }
        assert forall|i: int| 0 <= i < ir.funcs@.len() implies entry_never_entered(#[trigger] ir.funcs@[i]) by {
            assert(entry_never_entered(lowered.funcs@[i]));
        }
    }
    Ok(Unit { tokens, ast, ir, stats, assembly })
}

/// Renders a diagnostic against its source, rustc-style.
pub fn render(src: &str, name: &str, d: &Diagnostic, color: bool) -> (s: String)
    requires
        d.span.start < usize::MAX,
    ensures
        s@ == render_text(name@, src.spec_bytes(), d@, color),
{
    Source::new(name, src).render(d, color)
}

} // verus!
