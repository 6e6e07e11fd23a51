# Bellows

An optimizing compiler for Ash, a small typed language, from source text to
x86-64 assembly, with an IR interpreter — written in Verus, with each stage
proved against a specification.

## Layout

| Module | What is proved |
|---|---|
| `text` | Decimal formatting and padding helpers, exact over character sequences |
| `diag` | Spans, diagnostics, line/column lookup and rustc-style rendering, each equal to a spec function of the source bytes |
| `lexer` | `lex` returns exactly `spec_lex` of the source bytes: the tokens ending in `Eof`, or the first lexical error |
| `parser` | `parse` returns exactly `spec_parse`, a recursive-descent grammar over tokens; every expression id lies below the expression count; the AST printers are exact |
| `sema` | `check` returns exactly `spec_check`: scopes, types, mutability, arity, the `main` contract, missing returns and unreachable code; a checked program's calls all resolve |
| `ir` | Lowering yields well-formed IR in which each temp is written by exactly one instruction and no block jumps back to the entry; each expression and statement leaves the instruction or terminator its kind calls for (a literal its constant, a variable a load of its slot, a call a call of its function); `eval` is the one definition of arithmetic; the interpreter computes the small-step semantics `sem_call`; the printer is exact |
| `opt` | Every pass, and the fixpoint, keep the program well formed, each temp written by at most one instruction and the entry block never jumped to (`opt/shape.rs`); an instruction that folds computes the operand it folds to; branch folding and unreachable-block removal keep every run step for step, and dead-code removal, jump threading and block merging keep what a run prints and how it ends, in no more steps, unless it runs out of steps (`opt/meaning.rs`); unless a counter has reached its maximum, every pass finds nothing left to do in the optimized program; the counters stay zero exactly when every pass already found nothing to do, and the program is then left as it was |
| `codegen` | `generate` returns exactly `asm_text` of the IR |
| `lib` | `compile` chains the stages: its error is the first one of lexing, parsing or checking |

`app/main.rs` is the command line (`build`, `run`, `interp`, `check`,
`stats`): file I/O, the system assembler and linker, and printing.

## Checking

`tests/` holds the tests: the diagnostics of every error code, optimizer
shape tests, deterministic fuzzing, and tests of the proved properties on
concrete programs.
