//! AST and recursive-descent parser for Ash.
//!
//! ```text
//! program  := fn*
//! fn       := "fn" ident "(" (param ("," param)*)? ")" ("->" type)? block
//! param    := ident ":" type
//! type     := "i64" | "bool"
//! block    := "{" stmt* "}"
//! stmt     := "let" "mut"? ident (":" type)? "=" expr ";"
//!           | ident "=" expr ";"
//!           | "return" expr? ";"
//!           | "if" expr block ("else" (block | if-stmt))?
//!           | "while" expr block
//!           | "print" "(" expr ")" ";"
//!           | expr ";"
//! expr     := or ; or := and ("||" and)* ; and := eq ("&&" eq)*
//! eq       := cmp (("=="|"!=") cmp)* ; cmp := add (("<"|"<="|">"|">=") add)*
//! add      := mul (("+"|"-") mul)* ; mul := unary (("*"|"/"|"%") unary)*
//! unary    := ("-"|"!") unary | primary
//! primary  := int | "true" | "false" | string | ident ("(" args ")")? | "(" expr ")"
//! ```

use vstd::prelude::*;

use crate::diag::{Diagnostic, DiagV, Span, diag_v};
use crate::lexer::{Tok, TokV, Token, TokenV, tok_describe, tokens_view};
use crate::text::{debug_str, debug_text, int_text, push_char, push_int, str_eq};

verus! {

#[derive(Debug, Clone, Copy, PartialEq, Eq, Structural)]
pub enum Ty {
    I64,
    Bool,
    Unit,
    /// Only string literals have this type, and only `print` accepts it.
    Str,
}

/// How a type is written in messages.
pub open spec fn ty_text(t: Ty) -> Seq<char> {
    match t {
        Ty::I64 => "i64"@,
        Ty::Bool => "bool"@,
        Ty::Unit => "()"@,
        Ty::Str => "str"@,
    }
}

impl Ty {
    pub fn text(self) -> (s: &'static str)
        ensures
            s@ == ty_text(self),
    {
        match self {
            Ty::I64 => "i64",
            Ty::Bool => "bool",
            Ty::Unit => "()",
            Ty::Str => "str",
        }
    }
}

#[derive(Debug, Clone, Copy, PartialEq, Eq, Structural)]
pub enum BinOp {
    Add,
    Sub,
    Mul,
    Div,
    Rem,
    Lt,
    Le,
    Gt,
    Ge,
    Eq,
    Ne,
    And,
    Or,
}

pub open spec fn binop_text(op: BinOp) -> Seq<char> {
    match op {
        BinOp::Add => "+"@,
        BinOp::Sub => "-"@,
        BinOp::Mul => "*"@,
        BinOp::Div => "/"@,
        BinOp::Rem => "%"@,
        BinOp::Lt => "<"@,
        BinOp::Le => "<="@,
        BinOp::Gt => ">"@,
        BinOp::Ge => ">="@,
        BinOp::Eq => "=="@,
        BinOp::Ne => "!="@,
        BinOp::And => "&&"@,
        BinOp::Or => "||"@,
    }
}

impl BinOp {
    pub fn text(self) -> (s: &'static str)
        ensures
            s@ == binop_text(self),
    {
        match self {
            BinOp::Add => "+",
            BinOp::Sub => "-",
            BinOp::Mul => "*",
            BinOp::Div => "/",
            BinOp::Rem => "%",
            BinOp::Lt => "<",
            BinOp::Le => "<=",
            BinOp::Gt => ">",
            BinOp::Ge => ">=",
            BinOp::Eq => "==",
            BinOp::Ne => "!=",
            BinOp::And => "&&",
            BinOp::Or => "||",
        }
    }
}

#[derive(Debug, Clone, Copy, PartialEq, Eq, Structural)]
pub enum UnOp {
    Neg,
    Not,
}

#[derive(Debug, PartialEq)]
pub struct Expr {
    /// Dense id assigned by the parser; sema records each expr's type by id.
    pub id: usize,
    pub kind: ExprKind,
    pub span: Span,
}

#[derive(Debug, PartialEq)]
pub enum ExprKind {
    Int(i64),
    Bool(bool),
    Str(String),
    Var(String),
    Unary(UnOp, Box<Expr>),
    Binary(BinOp, Box<Expr>, Box<Expr>),
    Call(String, Vec<Expr>),
}

#[derive(Debug, PartialEq)]
pub struct Stmt {
    pub kind: StmtKind,
    pub span: Span,
}

#[derive(Debug, PartialEq)]
pub enum StmtKind {
    Let { name: String, name_span: Span, mutable: bool, ty: Option<Ty>, init: Expr },
    Assign { name: String, name_span: Span, value: Expr },
    Expr(Expr),
    Return(Option<Expr>),
    If { cond: Expr, then: Block, els: Option<Block> },
    While { cond: Expr, body: Block },
    Print(Expr),
}

#[derive(Debug, PartialEq)]
pub struct Block {
    pub stmts: Vec<Stmt>,
    pub span: Span,
}

#[derive(Debug, PartialEq)]
pub struct Param {
    pub name: String,
    pub ty: Ty,
    pub span: Span,
}

#[derive(Debug, PartialEq)]
pub struct FnDecl {
    pub name: String,
    pub name_span: Span,
    pub params: Vec<Param>,
    pub ret: Ty,
    pub body: Block,
    pub span: Span,
}

#[derive(Debug, PartialEq)]
pub struct Program {
    pub funcs: Vec<FnDecl>,
    /// Number of expression ids handed out.
    pub expr_count: usize,
}

impl Default for Program {
    fn default() -> (p: Program)
        ensures
            p.funcs@.len() == 0,
            p.expr_count == 0,
    {
        Program { funcs: Vec::new(), expr_count: 0 }
    }
}

// ----------------------------------------------------------- AST values --

pub enum ExprKindV {
    Int(i64),
    Bool(bool),
    Str(Seq<char>),
    Var(Seq<char>),
    Unary(UnOp, Box<ExprV>),
    Binary(BinOp, Box<ExprV>, Box<ExprV>),
    Call(Seq<char>, Seq<ExprV>),
}

pub struct ExprV {
    pub id: int,
    pub kind: ExprKindV,
    pub span: Span,
}

pub enum StmtKindV {
    Let { name: Seq<char>, name_span: Span, mutable: bool, ty: Option<Ty>, init: ExprV },
    Assign { name: Seq<char>, name_span: Span, value: ExprV },
    Expr(ExprV),
    Return(Option<ExprV>),
    If { cond: ExprV, then: BlockV, els: Option<BlockV> },
    While { cond: ExprV, body: BlockV },
    Print(ExprV),
}

pub struct StmtV {
    pub kind: StmtKindV,
    pub span: Span,
}

pub struct BlockV {
    pub stmts: Seq<StmtV>,
    pub span: Span,
}

pub struct ParamV {
    pub name: Seq<char>,
    pub ty: Ty,
    pub span: Span,
}

pub struct FnDeclV {
    pub name: Seq<char>,
    pub name_span: Span,
    pub params: Seq<ParamV>,
    pub ret: Ty,
    pub body: BlockV,
    pub span: Span,
}

pub struct ProgramV {
    pub funcs: Seq<FnDeclV>,
    pub expr_count: int,
}

pub open spec fn expr_v(e: Expr) -> ExprV
    decreases e,
{
    ExprV {
        id: e.id as int,
        kind: match e.kind {
            ExprKind::Int(n) => ExprKindV::Int(n),
            ExprKind::Bool(b) => ExprKindV::Bool(b),
            ExprKind::Str(s) => ExprKindV::Str(s@),
            ExprKind::Var(s) => ExprKindV::Var(s@),
            ExprKind::Unary(op, x) => ExprKindV::Unary(op, Box::new(expr_v(*x))),
            ExprKind::Binary(op, a, b) => ExprKindV::Binary(op, Box::new(expr_v(*a)), Box::new(expr_v(*b))),
            ExprKind::Call(f, args) => ExprKindV::Call(f@, exprs_v(args@)),
        },
        span: e.span,
    }
}

pub open spec fn exprs_v(s: Seq<Expr>) -> Seq<ExprV>
    decreases s,
{
    if s.len() == 0 {
        Seq::empty()
    } else {
        seq![expr_v(s[0])] + exprs_v(s.drop_first())
    }
}

impl View for Expr {
    type V = ExprV;

    open spec fn view(&self) -> ExprV {
        expr_v(*self)
    }
}

pub open spec fn opt_expr_v(e: Option<Expr>) -> Option<ExprV> {
    match e {
        Some(x) => Some(expr_v(x)),
        None => None,
    }
}

pub open spec fn stmt_v(s: Stmt) -> StmtV
    decreases s,
{
    StmtV {
        kind: match s.kind {
            StmtKind::Let { name, name_span, mutable, ty, init } => StmtKindV::Let {
                name: name@,
                name_span,
                mutable,
                ty,
                init: expr_v(init),
            },
            StmtKind::Assign { name, name_span, value } => StmtKindV::Assign {
                name: name@,
                name_span,
                value: expr_v(value),
            },
            StmtKind::Expr(e) => StmtKindV::Expr(expr_v(e)),
            StmtKind::Return(e) => StmtKindV::Return(opt_expr_v(e)),
            StmtKind::If { cond, then, els } => StmtKindV::If {
                cond: expr_v(cond),
                then: block_v(then),
                els: match els {
                    Some(b) => Some(block_v(b)),
                    None => None,
                },
            },
            StmtKind::While { cond, body } => StmtKindV::While { cond: expr_v(cond), body: block_v(body) },
            StmtKind::Print(e) => StmtKindV::Print(expr_v(e)),
        },
        span: s.span,
    }
}

pub open spec fn stmts_v(s: Seq<Stmt>) -> Seq<StmtV>
    decreases s,
{
    if s.len() == 0 {
        Seq::empty()
    } else {
        seq![stmt_v(s[0])] + stmts_v(s.drop_first())
    }
}

pub open spec fn block_v(b: Block) -> BlockV
    decreases b,
{
    BlockV { stmts: stmts_v(b.stmts@), span: b.span }
}

impl View for Stmt {
    type V = StmtV;

    open spec fn view(&self) -> StmtV {
        stmt_v(*self)
    }
}

impl View for Block {
    type V = BlockV;

    open spec fn view(&self) -> BlockV {
        block_v(*self)
    }
}

impl View for Param {
    type V = ParamV;

    open spec fn view(&self) -> ParamV {
        ParamV { name: self.name@, ty: self.ty, span: self.span }
    }
}

impl View for FnDecl {
    type V = FnDeclV;

    open spec fn view(&self) -> FnDeclV {
        FnDeclV {
            name: self.name@,
            name_span: self.name_span,
            params: self.params@.map_values(|p: Param| p@),
            ret: self.ret,
            body: block_v(self.body),
            span: self.span,
        }
    }
}

impl View for Program {
    type V = ProgramV;

    open spec fn view(&self) -> ProgramV {
        ProgramV { funcs: self.funcs@.map_values(|f: FnDecl| f@), expr_count: self.expr_count as int }
    }
}


// ------------------------------------------------------------ the spec --

/// A parse result: the value, the next token position and the next id.
pub type PR<T> = Result<(T, int, int), DiagV>;

pub open spec fn e002(span: Span, message: Seq<char>) -> DiagV {
    diag_v("E002"@, span, message)
}

/// The error for a parse that would not advance (never produced on
/// token lists that end in `Eof`).
pub open spec fn stuck() -> DiagV {
    e002(Span { start: 0, end: 0 }, Seq::empty())
}

/// Token lists the parser accepts: non-empty and ending in `Eof`.
pub open spec fn tokens_wf(ts: Seq<TokenV>) -> bool {
    ts.len() >= 1 && ts[ts.len() - 1].tok == TokV::Eof
}

pub open spec fn bump(ts: Seq<TokenV>, pos: int) -> int {
    if pos + 1 < ts.len() {
        pos + 1
    } else {
        pos
    }
}

pub open spec fn expected(ts: Seq<TokenV>, pos: int, what: Seq<char>) -> DiagV {
    e002(ts[pos].span, "expected "@ + what + ", found "@ + tok_describe(ts[pos].tok))
}

/// Consumes the token `t`, or reports what was expected.
pub open spec fn p_expect(ts: Seq<TokenV>, pos: int, t: TokV, what: Seq<char>) -> Result<(Span, int), DiagV> {
    if ts[pos].tok == t {
        Ok((ts[pos].span, bump(ts, pos)))
    } else {
        Err(expected(ts, pos, what))
    }
}

pub open spec fn p_ident(ts: Seq<TokenV>, pos: int, what: Seq<char>) -> Result<(Seq<char>, Span, int), DiagV> {
    match ts[pos].tok {
        TokV::Ident(s) => Ok((s, ts[pos].span, bump(ts, pos))),
        _ => Err(expected(ts, pos, what)),
    }
}

pub open spec fn p_ty(ts: Seq<TokenV>, pos: int) -> Result<(Ty, int), DiagV> {
    match p_ident(ts, pos, "a type"@) {
        Err(d) => Err(d),
        Ok((name, span, p1)) => if name == "i64"@ {
            Ok((Ty::I64, p1))
        } else if name == "bool"@ {
            Ok((Ty::Bool, p1))
        } else {
            Err(
                e002(span, "unknown type `"@ + name + "`"@).with_note(
                    "Ash has two value types: `i64` and `bool`"@,
                ),
            )
        },
    }
}

/// Binary operators with their precedence (higher binds tighter).
pub open spec fn binop_of(t: TokV) -> Option<(BinOp, int)> {
    match t {
        TokV::OrOr => Some((BinOp::Or, 1)),
        TokV::AndAnd => Some((BinOp::And, 2)),
        TokV::EqEq => Some((BinOp::Eq, 3)),
        TokV::Ne => Some((BinOp::Ne, 3)),
        TokV::Lt => Some((BinOp::Lt, 4)),
        TokV::Le => Some((BinOp::Le, 4)),
        TokV::Gt => Some((BinOp::Gt, 4)),
        TokV::Ge => Some((BinOp::Ge, 4)),
        TokV::Plus => Some((BinOp::Add, 5)),
        TokV::Minus => Some((BinOp::Sub, 5)),
        TokV::Star => Some((BinOp::Mul, 6)),
        TokV::Slash => Some((BinOp::Div, 6)),
        TokV::Percent => Some((BinOp::Rem, 6)),
        _ => None,
    }
}

/// The precedence of a binary operator token.
pub open spec fn prec_of(t: TokV) -> int {
    (binop_of(t)->0).1
}

/// The operator levels, loosest first: `||`, then `&&`, then `==` and `!=`,
/// then `<`, `<=`, `>`, `>=`, then `+` and `-`, then `*`, `/` and `%`; the
/// operators of one level share their precedence, and each token stands
/// for its own operator.
pub proof fn lemma_precedence_levels()
    ensures
        binop_of(TokV::OrOr) == Some((BinOp::Or, prec_of(TokV::OrOr))),
        binop_of(TokV::AndAnd) == Some((BinOp::And, prec_of(TokV::AndAnd))),
        binop_of(TokV::EqEq) == Some((BinOp::Eq, prec_of(TokV::EqEq))),
        binop_of(TokV::Ne) == Some((BinOp::Ne, prec_of(TokV::Ne))),
        binop_of(TokV::Lt) == Some((BinOp::Lt, prec_of(TokV::Lt))),
        binop_of(TokV::Le) == Some((BinOp::Le, prec_of(TokV::Le))),
        binop_of(TokV::Gt) == Some((BinOp::Gt, prec_of(TokV::Gt))),
        binop_of(TokV::Ge) == Some((BinOp::Ge, prec_of(TokV::Ge))),
        binop_of(TokV::Plus) == Some((BinOp::Add, prec_of(TokV::Plus))),
        binop_of(TokV::Minus) == Some((BinOp::Sub, prec_of(TokV::Minus))),
        binop_of(TokV::Star) == Some((BinOp::Mul, prec_of(TokV::Star))),
        binop_of(TokV::Slash) == Some((BinOp::Div, prec_of(TokV::Slash))),
        binop_of(TokV::Percent) == Some((BinOp::Rem, prec_of(TokV::Percent))),
        prec_of(TokV::OrOr) < prec_of(TokV::AndAnd),
        prec_of(TokV::AndAnd) < prec_of(TokV::EqEq),
        prec_of(TokV::EqEq) == prec_of(TokV::Ne),
        prec_of(TokV::Ne) < prec_of(TokV::Lt),
        prec_of(TokV::Lt) == prec_of(TokV::Le) && prec_of(TokV::Le) == prec_of(TokV::Gt) && prec_of(TokV::Gt) == prec_of(TokV::Ge),
        prec_of(TokV::Ge) < prec_of(TokV::Plus),
        prec_of(TokV::Plus) == prec_of(TokV::Minus),
        prec_of(TokV::Minus) < prec_of(TokV::Star),
        prec_of(TokV::Star) == prec_of(TokV::Slash) && prec_of(TokV::Slash) == prec_of(TokV::Percent),
        prec_of(TokV::OrOr) >= 1,
{
}

pub open spec fn p_expr(ts: Seq<TokenV>, pos: int, id: int) -> PR<ExprV>
    decreases ts.len() - pos, 5int,
{
    if 0 <= pos < ts.len() {
        p_binary(ts, pos, id, 0)
    } else {
        Err(stuck())
    }
}

/// Precedence climbing: an operand, then operators of precedence at
/// least `min_prec`.
pub open spec fn p_binary(ts: Seq<TokenV>, pos: int, id: int, min_prec: int) -> PR<ExprV>
    decreases ts.len() - pos, 4int,
{
    if 0 <= pos < ts.len() {
        match p_unary(ts, pos, id) {
            Err(d) => Err(d),
            Ok((lhs, p1, i1)) => if pos < p1 < ts.len() {
                p_binary_rest(ts, p1, i1, min_prec, lhs)
            } else {
                Err(stuck())
            },
        }
    } else {
        Err(stuck())
    }
}

pub open spec fn p_binary_rest(ts: Seq<TokenV>, pos: int, id: int, min_prec: int, lhs: ExprV) -> PR<ExprV>
    decreases ts.len() - pos, 3int,
{
    if 0 <= pos < ts.len() {
        match binop_of(ts[pos].tok) {
            None => Ok((lhs, pos, id)),
            Some((op, prec)) => if prec < min_prec {
                Ok((lhs, pos, id))
            } else {
                let p1 = bump(ts, pos);
                if pos < p1 {
                    match p_binary(ts, p1, id, prec + 1) {
                        Err(d) => Err(d),
                        Ok((rhs, p2, i2)) => if p1 < p2 < ts.len() {
                            p_binary_rest(
                                ts,
                                p2,
                                i2 + 1,
                                min_prec,
                                ExprV {
                                    id: i2,
                                    kind: ExprKindV::Binary(op, Box::new(lhs), Box::new(rhs)),
                                    span: lhs.span.spec_to(rhs.span),
                                },
                            )
                        } else {
                            Err(stuck())
                        },
                    }
                } else {
                    Err(stuck())
                }
            },
        }
    } else {
        Err(stuck())
    }
}

pub open spec fn p_unary(ts: Seq<TokenV>, pos: int, id: int) -> PR<ExprV>
    decreases ts.len() - pos, 2int,
{
    if 0 <= pos < ts.len() {
        let op = if ts[pos].tok == TokV::Minus {
            Some(UnOp::Neg)
        } else if ts[pos].tok == TokV::Bang {
            Some(UnOp::Not)
        } else {
            None
        };
        match op {
            Some(op) => {
                let p1 = bump(ts, pos);
                if pos < p1 {
                    match p_unary(ts, p1, id) {
                        Err(d) => Err(d),
                        Ok((inner, p2, i2)) => Ok(
                            (
                                ExprV {
                                    id: i2,
                                    kind: ExprKindV::Unary(op, Box::new(inner)),
                                    span: ts[pos].span.spec_to(inner.span),
                                },
                                p2,
                                i2 + 1,
                            ),
                        ),
                    }
                } else {
                    Err(stuck())
                }
            },
            None => p_primary(ts, pos, id),
        }
    } else {
        Err(stuck())
    }
}

pub open spec fn leaf(k: ExprKindV, id: int, span: Span, p1: int) -> PR<ExprV> {
    Ok((ExprV { id: id, kind: k, span: span }, p1, id + 1))
}

pub open spec fn p_primary(ts: Seq<TokenV>, pos: int, id: int) -> PR<ExprV>
    decreases ts.len() - pos, 1int,
{
    if 0 <= pos < ts.len() {
        let t = ts[pos];
        let p1 = bump(ts, pos);
        match t.tok {
            TokV::Int(n) => leaf(ExprKindV::Int(n), id, t.span, p1),
            TokV::True => leaf(ExprKindV::Bool(true), id, t.span, p1),
            TokV::False => leaf(ExprKindV::Bool(false), id, t.span, p1),
            TokV::Str(s) => leaf(ExprKindV::Str(s), id, t.span, p1),
            TokV::LParen => if pos < p1 {
                match p_expr(ts, p1, id) {
                    Err(d) => Err(d),
                    Ok((e, p2, i2)) => if 0 <= p2 < ts.len() {
                        match p_expect(ts, p2, TokV::RParen, "`)`"@) {
                            Err(d) => Err(d),
                            Ok((_, p3)) => Ok((e, p3, i2)),
                        }
                    } else {
                        Err(stuck())
                    },
                }
            } else {
                Err(stuck())
            },
            TokV::Ident(name) => if pos < p1 && ts[p1].tok == TokV::LParen {
                let p2 = bump(ts, p1);
                if p1 < p2 {
                    match p_args(ts, p2, id) {
                        Err(d) => Err(d),
                        Ok((args, p3, i3)) => if 0 <= p3 < ts.len() {
                            match p_expect(ts, p3, TokV::RParen, "`)` after arguments"@) {
                                Err(d) => Err(d),
                                Ok((end, p4)) => Ok(
                                    (
                                        ExprV {
                                            id: i3,
                                            kind: ExprKindV::Call(name, args),
                                            span: t.span.spec_to(end),
                                        },
                                        p4,
                                        i3 + 1,
                                    ),
                                ),
                            }
                        } else {
                            Err(stuck())
                        },
                    }
                } else {
                    Err(stuck())
                }
            } else {
                leaf(ExprKindV::Var(name), id, t.span, p1)
            },
            _ => Err(e002(t.span, "expected an expression, found "@ + tok_describe(t.tok))),
        }
    } else {
        Err(stuck())
    }
}

/// Call arguments up to (not including) the closing parenthesis.
pub open spec fn p_args(ts: Seq<TokenV>, pos: int, id: int) -> PR<Seq<ExprV>>
    decreases ts.len() - pos, 7int,
{
    if 0 <= pos < ts.len() {
        if ts[pos].tok == TokV::RParen {
            Ok((Seq::empty(), pos, id))
        } else {
            p_arg_list(ts, pos, id)
        }
    } else {
        Err(stuck())
    }
}

pub open spec fn p_arg_list(ts: Seq<TokenV>, pos: int, id: int) -> PR<Seq<ExprV>>
    decreases ts.len() - pos, 6int,
{
    if 0 <= pos < ts.len() {
        match p_expr(ts, pos, id) {
            Err(d) => Err(d),
            Ok((e, p1, i1)) => if pos < p1 < ts.len() {
                if ts[p1].tok == TokV::Comma {
                    let p2 = bump(ts, p1);
                    if p1 < p2 {
                        match p_arg_list(ts, p2, i1) {
                            Err(d) => Err(d),
                            Ok((rest, p3, i3)) => Ok((seq![e] + rest, p3, i3)),
                        }
                    } else {
                        Err(stuck())
                    }
                } else {
                    Ok((seq![e], p1, i1))
                }
            } else {
                Err(stuck())
            },
        }
    } else {
        Err(stuck())
    }
}


/// The type annotation of a `let`, if any.
pub open spec fn p_let_ty(ts: Seq<TokenV>, pos: int) -> Result<(Option<Ty>, int), DiagV> {
    if ts[pos].tok == TokV::Colon {
        match p_ty(ts, bump(ts, pos)) {
            Err(d) => Err(d),
            Ok((t, p1)) => Ok((Some(t), p1)),
        }
    } else {
        Ok((None, pos))
    }
}

pub open spec fn stmt_at(k: StmtKindV, start: Span, end: Span) -> StmtV {
    StmtV { kind: k, span: start.spec_to(end) }
}

pub open spec fn is_print(ts: Seq<TokenV>, pos: int) -> bool {
    &&& ts[pos].tok matches TokV::Ident(name)
    &&& name == "print"@
    &&& ts[pos + 1].tok == TokV::LParen
}

pub open spec fn is_assign(ts: Seq<TokenV>, pos: int) -> bool {
    &&& ts[pos].tok is Ident
    &&& ts[pos + 1].tok == TokV::Assign
}

pub open spec fn p_let(ts: Seq<TokenV>, pos: int, id: int) -> PR<StmtV>
{
    if 0 <= pos < ts.len() {
        let start = ts[pos].span;
        let p1 = bump(ts, pos);
        let mutable = ts[p1].tok == TokV::Mut;
        let p2 = if mutable { bump(ts, p1) } else { p1 };
        match p_ident(ts, p2, "a variable name"@) {
            Err(d) => Err(d),
            Ok((name, name_span, p3)) => match p_let_ty(ts, p3) {
                Err(d) => Err(d),
                Ok((ty, p4)) => match p_expect(ts, p4, TokV::Assign, "`=` (Ash variables must be initialised)"@) {
                    Err(d) => Err(d),
                    Ok((_, p5)) => if pos < p5 {
                        match p_expr(ts, p5, id) {
                            Err(d) => Err(d),
                            Ok((init, p6, i6)) => if 0 <= p6 < ts.len() {
                                match p_expect(ts, p6, TokV::Semi, "`;` after the initialiser"@) {
                                    Err(d) => Err(d),
                                    Ok((end, p7)) => Ok(
                                        (
                                            stmt_at(
                                                StmtKindV::Let { name, name_span, mutable, ty, init },
                                                start,
                                                end,
                                            ),
                                            p7,
                                            i6,
                                        ),
                                    ),
                                }
                            } else {
                                Err(stuck())
                            },
                        }
                    } else {
                        Err(stuck())
                    },
                },
            },
        }
    } else {
        Err(stuck())
    }
}

pub open spec fn p_return(ts: Seq<TokenV>, pos: int, id: int) -> PR<StmtV>
{
    if 0 <= pos < ts.len() {
        let start = ts[pos].span;
        let p1 = bump(ts, pos);
        if pos < p1 {
            if ts[p1].tok == TokV::Semi {
                match p_expect(ts, p1, TokV::Semi, "`;` after `return`"@) {
                    Err(d) => Err(d),
                    Ok((end, p2)) => Ok((stmt_at(StmtKindV::Return(None), start, end), p2, id)),
                }
            } else {
                match p_expr(ts, p1, id) {
                    Err(d) => Err(d),
                    Ok((e, p2, i2)) => if 0 <= p2 < ts.len() {
                        match p_expect(ts, p2, TokV::Semi, "`;` after `return`"@) {
                            Err(d) => Err(d),
                            Ok((end, p3)) => Ok((stmt_at(StmtKindV::Return(Some(e)), start, end), p3, i2)),
                        }
                    } else {
                        Err(stuck())
                    },
                }
            }
        } else {
            Err(stuck())
        }
    } else {
        Err(stuck())
    }
}

pub open spec fn p_if(ts: Seq<TokenV>, pos: int, id: int) -> PR<StmtV>
    decreases ts.len() - pos, 8int,
{
    if 0 <= pos < ts.len() {
        let start = ts[pos].span;
        let p1 = bump(ts, pos);
        if pos < p1 {
            match p_expr(ts, p1, id) {
                Err(d) => Err(d),
                Ok((cond, p2, i2)) => if p1 < p2 < ts.len() {
                    match p_block(ts, p2, i2) {
                        Err(d) => Err(d),
                        Ok((then, p3, i3)) => if p2 < p3 < ts.len() {
                            if ts[p3].tok == TokV::Else {
                                let p4 = bump(ts, p3);
                                if p3 < p4 {
                                    if ts[p4].tok == TokV::If {
                                        match p_stmt(ts, p4, i3) {
                                            Err(d) => Err(d),
                                            Ok((s, p5, i5)) => {
                                                let els = BlockV { stmts: seq![s], span: s.span };
                                                Ok(
                                                    (
                                                        stmt_at(
                                                            StmtKindV::If { cond, then, els: Some(els) },
                                                            start,
                                                            els.span,
                                                        ),
                                                        p5,
                                                        i5,
                                                    ),
                                                )
                                            },
                                        }
                                    } else {
                                        match p_block(ts, p4, i3) {
                                            Err(d) => Err(d),
                                            Ok((els, p5, i5)) => Ok(
                                                (
                                                    stmt_at(
                                                        StmtKindV::If { cond, then, els: Some(els) },
                                                        start,
                                                        els.span,
                                                    ),
                                                    p5,
                                                    i5,
                                                ),
                                            ),
                                        }
                                    }
                                } else {
                                    Err(stuck())
                                }
                            } else {
                                Ok((stmt_at(StmtKindV::If { cond, then, els: None }, start, then.span), p3, i3))
                            }
                        } else {
                            Err(stuck())
                        },
                    }
                } else {
                    Err(stuck())
                },
            }
        } else {
            Err(stuck())
        }
    } else {
        Err(stuck())
    }
}

pub open spec fn p_while(ts: Seq<TokenV>, pos: int, id: int) -> PR<StmtV>
    decreases ts.len() - pos, 8int,
{
    if 0 <= pos < ts.len() {
        let start = ts[pos].span;
        let p1 = bump(ts, pos);
        if pos < p1 {
            match p_expr(ts, p1, id) {
                Err(d) => Err(d),
                Ok((cond, p2, i2)) => if p1 < p2 < ts.len() {
                    match p_block(ts, p2, i2) {
                        Err(d) => Err(d),
                        Ok((body, p3, i3)) => Ok((stmt_at(StmtKindV::While { cond, body }, start, body.span), p3, i3)),
                    }
                } else {
                    Err(stuck())
                },
            }
        } else {
            Err(stuck())
        }
    } else {
        Err(stuck())
    }
}

pub open spec fn p_print(ts: Seq<TokenV>, pos: int, id: int) -> PR<StmtV>
{
    if 0 <= pos < ts.len() {
        let start = ts[pos].span;
        let p1 = bump(ts, pos);
        let p2 = bump(ts, bump(ts, pos));
        if pos < p2 {
            match p_expr(ts, p2, id) {
                Err(d) => Err(d),
                Ok((e, p3, i3)) => if 0 <= p3 < ts.len() {
                    match p_expect(ts, p3, TokV::RParen, "`)` after the print argument"@) {
                        Err(d) => Err(d),
                        Ok((_, p4)) => match p_expect(ts, p4, TokV::Semi, "`;` after `print(...)`"@) {
                            Err(d) => Err(d),
                            Ok((end, p5)) => Ok((stmt_at(StmtKindV::Print(e), start, end), p5, i3)),
                        },
                    }
                } else {
                    Err(stuck())
                },
            }
        } else {
            Err(stuck())
        }
    } else {
        Err(stuck())
    }
}

pub open spec fn p_assign(ts: Seq<TokenV>, pos: int, id: int) -> PR<StmtV>
{
    if 0 <= pos < ts.len() {
        let start = ts[pos].span;
        let p1 = bump(ts, pos);
        let p2 = bump(ts, bump(ts, pos));
        if pos < p2 {
            match p_expr(ts, p2, id) {
                Err(d) => Err(d),
                Ok((value, p3, i3)) => if 0 <= p3 < ts.len() {
                    match p_expect(ts, p3, TokV::Semi, "`;` after the assignment"@) {
                        Err(d) => Err(d),
                        Ok((end, p4)) => Ok(
                            (
                                stmt_at(
                                    StmtKindV::Assign { name: ts[pos].tok->Ident_0, name_span: start, value },
                                    start,
                                    end,
                                ),
                                p4,
                                i3,
                            ),
                        ),
                    }
                } else {
                    Err(stuck())
                },
            }
        } else {
            Err(stuck())
        }
    } else {
        Err(stuck())
    }
}

pub open spec fn p_expr_stmt(ts: Seq<TokenV>, pos: int, id: int) -> PR<StmtV>
{
    if 0 <= pos < ts.len() {
        let start = ts[pos].span;
        let p1 = bump(ts, pos);
        match p_expr(ts, pos, id) {
            Err(d) => Err(d),
            Ok((e, p2, i2)) => if 0 <= p2 < ts.len() {
                match p_expect(ts, p2, TokV::Semi, "`;` after the expression"@) {
                    Err(d) => Err(d.with_note("only function calls are useful as statements"@)),
                    Ok((end, p3)) => Ok((stmt_at(StmtKindV::Expr(e), start, end), p3, i2)),
                }
            } else {
                Err(stuck())
            },
        }
    } else {
        Err(stuck())
    }
}

pub open spec fn p_stmt(ts: Seq<TokenV>, pos: int, id: int) -> PR<StmtV>
    decreases ts.len() - pos, 9int,
{
    if 0 <= pos < ts.len() {
        if ts[pos].tok == TokV::Let {
            p_let(ts, pos, id)
        } else if ts[pos].tok == TokV::Return {
            p_return(ts, pos, id)
        } else if ts[pos].tok == TokV::If {
            p_if(ts, pos, id)
        } else if ts[pos].tok == TokV::While {
            p_while(ts, pos, id)
        } else if pos + 1 < ts.len() && is_print(ts, pos) {
            p_print(ts, pos, id)
        } else if pos + 1 < ts.len() && is_assign(ts, pos) {
            p_assign(ts, pos, id)
        } else {
            p_expr_stmt(ts, pos, id)
        }
    } else {
        Err(stuck())
    }
}

pub open spec fn p_block(ts: Seq<TokenV>, pos: int, id: int) -> PR<BlockV>
    decreases ts.len() - pos, 11int,
{
    if 0 <= pos < ts.len() {
        match p_expect(ts, pos, TokV::LBrace, "`{`"@) {
            Err(d) => Err(d),
            Ok((start, p1)) => if pos < p1 {
                p_block_rest(ts, p1, id, start, Seq::empty())
            } else {
                Err(stuck())
            },
        }
    } else {
        Err(stuck())
    }
}

pub open spec fn p_block_rest(ts: Seq<TokenV>, pos: int, id: int, start: Span, acc: Seq<StmtV>) -> PR<BlockV>
    decreases ts.len() - pos, 10int,
{
    if 0 <= pos < ts.len() {
        if ts[pos].tok == TokV::RBrace {
            Ok((BlockV { stmts: acc, span: start.spec_to(ts[pos].span) }, bump(ts, pos), id))
        } else if ts[pos].tok == TokV::Eof {
            Err(
                e002(ts[pos].span, "unexpected end of file, expected `}`"@).with_label(
                    "this block was never closed"@,
                ),
            )
        } else {
            match p_stmt(ts, pos, id) {
                Err(d) => Err(d),
                Ok((s, p1, i1)) => if pos < p1 < ts.len() {
                    p_block_rest(ts, p1, i1, start, acc.push(s))
                } else {
                    Err(stuck())
                },
            }
        }
    } else {
        Err(stuck())
    }
}

/// Parameters, separated by commas.
pub open spec fn p_params(ts: Seq<TokenV>, pos: int) -> Result<(Seq<ParamV>, int), DiagV>
    decreases ts.len() - pos,
{
    if 0 <= pos < ts.len() {
        match p_ident(ts, pos, "a parameter name"@) {
            Err(d) => Err(d),
            Ok((name, span, p1)) => match p_expect(ts, p1, TokV::Colon, "`:` followed by the parameter type"@) {
                Err(d) => Err(d),
                Ok((_, p2)) => match p_ty(ts, p2) {
                    Err(d) => Err(d),
                    Ok((ty, p3)) => {
                        let param = ParamV { name, ty, span };
                        if ts[p3].tok == TokV::Comma {
                            let p4 = bump(ts, p3);
                            if pos < p4 {
                                match p_params(ts, p4) {
                                    Err(d) => Err(d),
                                    Ok((rest, p5)) => Ok((seq![param] + rest, p5)),
                                }
                            } else {
                                Err(stuck())
                            }
                        } else {
                            Ok((seq![param], p3))
                        }
                    },
                },
            },
        }
    } else {
        Err(stuck())
    }
}

/// The parameter list after `(`, up to (not including) `)`.
pub open spec fn p_param_list(ts: Seq<TokenV>, pos: int) -> Result<(Seq<ParamV>, int), DiagV> {
    if ts[pos].tok == TokV::RParen {
        Ok((Seq::empty(), pos))
    } else {
        p_params(ts, pos)
    }
}

/// The return type after `)`, `()` when there is no `->`.
pub open spec fn p_ret(ts: Seq<TokenV>, pos: int) -> Result<(Ty, int), DiagV> {
    if ts[pos].tok == TokV::Arrow {
        p_ty(ts, bump(ts, pos))
    } else {
        Ok((Ty::Unit, pos))
    }
}

pub open spec fn p_func(ts: Seq<TokenV>, pos: int, id: int) -> PR<FnDeclV> {
    match p_expect(ts, pos, TokV::Fn, "`fn`"@) {
        Err(d) => Err(d),
        Ok((start, p1)) => match p_ident(ts, p1, "a function name"@) {
            Err(d) => Err(d),
            Ok((name, name_span, p2)) => match p_expect(ts, p2, TokV::LParen, "`(` after the function name"@) {
                Err(d) => Err(d),
                Ok((_, p3)) => match p_param_list(ts, p3) {
                    Err(d) => Err(d),
                    Ok((params, p4)) => match p_expect(ts, p4, TokV::RParen, "`)` after parameters"@) {
                        Err(d) => Err(d),
                        Ok((_, p5)) => match p_ret(ts, p5) {
                            Err(d) => Err(d),
                            Ok((ret, p6)) => match p_block(ts, p6, id) {
                                Err(d) => Err(d),
                                Ok((body, p7, i7)) => Ok(
                                    (
                                        FnDeclV { name, name_span, params, ret, body, span: start.spec_to(body.span) },
                                        p7,
                                        i7,
                                    ),
                                ),
                            },
                        },
                    },
                },
            },
        },
    }
}

pub open spec fn p_program(ts: Seq<TokenV>, pos: int, id: int, acc: Seq<FnDeclV>) -> Result<ProgramV, DiagV>
    decreases ts.len() - pos,
{
    if 0 <= pos < ts.len() {
        if ts[pos].tok == TokV::Eof {
            Ok(ProgramV { funcs: acc, expr_count: id })
        } else if ts[pos].tok != TokV::Fn {
            Err(
                e002(ts[pos].span, "expected `fn` at top level, found "@ + tok_describe(ts[pos].tok)).with_note(
                    "Ash programs are a sequence of function declarations"@,
                ),
            )
        } else {
            match p_func(ts, pos, id) {
                Err(d) => Err(d),
                Ok((f, p1, i1)) => if pos < p1 < ts.len() {
                    p_program(ts, p1, i1, acc.push(f))
                } else {
                    Err(stuck())
                },
            }
        }
    } else {
        Err(stuck())
    }
}

/// The program the tokens spell, or the first syntax error.
pub open spec fn spec_parse(ts: Seq<TokenV>) -> Result<ProgramV, DiagV> {
    p_program(ts, 0, 0, Seq::empty())
}


// ----------------------------------------------------------------- ids --

/// Every expression id in `e` is below `n`.
pub open spec fn expr_ids_lt(e: ExprV, n: int) -> bool
    decreases e,
{
    &&& 0 <= e.id < n
    &&& match e.kind {
        ExprKindV::Unary(_, x) => expr_ids_lt(*x, n),
        ExprKindV::Binary(_, a, b) => expr_ids_lt(*a, n) && expr_ids_lt(*b, n),
        ExprKindV::Call(_, args) => exprs_ids_lt(args, n),
        _ => true,
    }
}

pub open spec fn exprs_ids_lt(s: Seq<ExprV>, n: int) -> bool
    decreases s,
{
    s.len() > 0 ==> expr_ids_lt(s[0], n) && exprs_ids_lt(s.drop_first(), n)
}

pub open spec fn stmt_ids_lt(s: StmtV, n: int) -> bool
    decreases s,
{
    match s.kind {
        StmtKindV::Let { init, .. } => expr_ids_lt(init, n),
        StmtKindV::Assign { value, .. } => expr_ids_lt(value, n),
        StmtKindV::Expr(e) => expr_ids_lt(e, n),
        StmtKindV::Return(v) => v matches Some(e) ==> expr_ids_lt(e, n),
        StmtKindV::If { cond, then, els } => expr_ids_lt(cond, n) && block_ids_lt(then, n) && (els matches Some(b) ==> block_ids_lt(b, n)),
        StmtKindV::While { cond, body } => expr_ids_lt(cond, n) && block_ids_lt(body, n),
        StmtKindV::Print(e) => expr_ids_lt(e, n),
    }
}

pub open spec fn stmts_ids_lt(s: Seq<StmtV>, n: int) -> bool
    decreases s,
{
    s.len() > 0 ==> stmt_ids_lt(s[0], n) && stmts_ids_lt(s.drop_first(), n)
}

pub open spec fn block_ids_lt(b: BlockV, n: int) -> bool
    decreases b,
{
    stmts_ids_lt(b.stmts, n)
}

/// Every expression id of the program is below its expression count.
pub open spec fn program_ids_ok(p: ProgramV) -> bool {
    forall|i: int| 0 <= i < p.funcs.len() ==> block_ids_lt(#[trigger] p.funcs[i].body, p.expr_count)
}


/// The ids of a parsed expression lie below the next id, which did not go down.
pub open spec fn expr_ids_ok(r: PR<ExprV>, id: int) -> bool {
    r is Ok ==> id <= r->Ok_0.2 && expr_ids_lt(r->Ok_0.0, r->Ok_0.2)
}

pub open spec fn exprs_ids_ok(r: PR<Seq<ExprV>>, id: int) -> bool {
    r is Ok ==> id <= r->Ok_0.2 && exprs_ids_lt(r->Ok_0.0, r->Ok_0.2)
}

pub open spec fn stmt_ids_ok(r: PR<StmtV>, id: int) -> bool {
    r is Ok ==> id <= r->Ok_0.2 && stmt_ids_lt(r->Ok_0.0, r->Ok_0.2)
}

pub open spec fn block_ids_ok(r: PR<BlockV>, id: int) -> bool {
    r is Ok ==> id <= r->Ok_0.2 && block_ids_lt(r->Ok_0.0, r->Ok_0.2)
}

proof fn lemma_expr_widen(e: ExprV, a: int, b: int)
    requires
        expr_ids_lt(e, a),
        a <= b,
    ensures
        expr_ids_lt(e, b),
    decreases e,
{
    match e.kind {
        ExprKindV::Unary(_, x) => lemma_expr_widen(*x, a, b),
        ExprKindV::Binary(_, x, y) => {
            lemma_expr_widen(*x, a, b);
            lemma_expr_widen(*y, a, b);
        },
        ExprKindV::Call(_, args) => lemma_exprs_widen(args, a, b),
        _ => {},
    }
}

proof fn lemma_exprs_widen(s: Seq<ExprV>, a: int, b: int)
    requires
        exprs_ids_lt(s, a),
        a <= b,
    ensures
        exprs_ids_lt(s, b),
    decreases s,
{
    if s.len() > 0 {
        lemma_expr_widen(s[0], a, b);
        lemma_exprs_widen(s.drop_first(), a, b);
    }
}

proof fn lemma_stmt_widen(s: StmtV, a: int, b: int)
    requires
        stmt_ids_lt(s, a),
        a <= b,
    ensures
        stmt_ids_lt(s, b),
    decreases s,
{
    match s.kind {
        StmtKindV::Let { init, .. } => lemma_expr_widen(init, a, b),
        StmtKindV::Assign { value, .. } => lemma_expr_widen(value, a, b),
        StmtKindV::Expr(e) => lemma_expr_widen(e, a, b),
        StmtKindV::Return(v) => if let Some(e) = v {
            lemma_expr_widen(e, a, b);
        },
        StmtKindV::If { cond, then, els } => {
            lemma_expr_widen(cond, a, b);
            lemma_block_widen(then, a, b);
            if let Some(eb) = els {
                lemma_block_widen(eb, a, b);
            }
        },
        StmtKindV::While { cond, body } => {
            lemma_expr_widen(cond, a, b);
            lemma_block_widen(body, a, b);
        },
        StmtKindV::Print(e) => lemma_expr_widen(e, a, b),
    }
}

proof fn lemma_stmts_widen(s: Seq<StmtV>, a: int, b: int)
    requires
        stmts_ids_lt(s, a),
        a <= b,
    ensures
        stmts_ids_lt(s, b),
    decreases s,
{
    if s.len() > 0 {
        lemma_stmt_widen(s[0], a, b);
        lemma_stmts_widen(s.drop_first(), a, b);
    }
}

proof fn lemma_block_widen(bl: BlockV, a: int, b: int)
    requires
        block_ids_lt(bl, a),
        a <= b,
    ensures
        block_ids_lt(bl, b),
    decreases bl,
{
    lemma_stmts_widen(bl.stmts, a, b);
}

proof fn lemma_stmts_push(s: Seq<StmtV>, x: StmtV, n: int)
    requires
        stmts_ids_lt(s, n),
        stmt_ids_lt(x, n),
    ensures
        stmts_ids_lt(s.push(x), n),
    decreases s.len(),
{
    if s.len() > 0 {
        assert(s.push(x).drop_first() =~= s.drop_first().push(x));
        assert(s.push(x)[0] == s[0]);
        lemma_stmts_push(s.drop_first(), x, n);
    } else {
        assert(s.push(x).drop_first() =~= Seq::<StmtV>::empty());
        assert(stmts_ids_lt(Seq::<StmtV>::empty(), n));
        assert(s.push(x)[0] == x);
    }
}

proof fn lemma_p_expr_ids(ts: Seq<TokenV>, pos: int, id: int)
    requires
        id >= 0,
    ensures
        expr_ids_ok(p_expr(ts, pos, id), id),
    decreases ts.len() - pos, 5int,
{
    if 0 <= pos < ts.len() {
        lemma_p_binary_ids(ts, pos, id, 0);
    }
}

proof fn lemma_p_binary_ids(ts: Seq<TokenV>, pos: int, id: int, min_prec: int)
    requires
        id >= 0,
    ensures
        expr_ids_ok(p_binary(ts, pos, id, min_prec), id),
    decreases ts.len() - pos, 4int,
{
    if 0 <= pos < ts.len() {
        lemma_p_unary_ids(ts, pos, id);
        if let Ok((lhs, p1, i1)) = p_unary(ts, pos, id) {
            if pos < p1 < ts.len() {
                lemma_p_binary_rest_ids(ts, p1, i1, min_prec, lhs);
            }
        }
    }
}

proof fn lemma_p_binary_rest_ids(ts: Seq<TokenV>, pos: int, id: int, min_prec: int, lhs: ExprV)
    requires
        id >= 0,
        expr_ids_lt(lhs, id),
    ensures
        expr_ids_ok(p_binary_rest(ts, pos, id, min_prec, lhs), id),
    decreases ts.len() - pos, 3int,
{
    if 0 <= pos < ts.len() {
        if let Some((op, prec)) = binop_of(ts[pos].tok) {
            let p1 = bump(ts, pos);
            if prec >= min_prec && pos < p1 {
                lemma_p_binary_ids(ts, p1, id, prec + 1);
                if let Ok((rhs, p2, i2)) = p_binary(ts, p1, id, prec + 1) {
                    if p1 < p2 < ts.len() {
                        lemma_expr_widen(lhs, id, i2 + 1);
                        lemma_expr_widen(rhs, i2, i2 + 1);
                        let e = ExprV {
                            id: i2,
                            kind: ExprKindV::Binary(op, Box::new(lhs), Box::new(rhs)),
                            span: lhs.span.spec_to(rhs.span),
                        };
                        lemma_p_binary_rest_ids(ts, p2, i2 + 1, min_prec, e);
                    }
                }
            }
        }
    }
}

proof fn lemma_p_unary_ids(ts: Seq<TokenV>, pos: int, id: int)
    requires
        id >= 0,
    ensures
        expr_ids_ok(p_unary(ts, pos, id), id),
    decreases ts.len() - pos, 2int,
{
    if 0 <= pos < ts.len() {
        let p1 = bump(ts, pos);
        if ts[pos].tok == TokV::Minus || ts[pos].tok == TokV::Bang {
            if pos < p1 {
                lemma_p_unary_ids(ts, p1, id);
                if let Ok((inner, p2, i2)) = p_unary(ts, p1, id) {
                    lemma_expr_widen(inner, i2, i2 + 1);
                }
            }
        } else {
            lemma_p_primary_ids(ts, pos, id);
        }
    }
}

proof fn lemma_p_primary_ids(ts: Seq<TokenV>, pos: int, id: int)
    requires
        id >= 0,
    ensures
        expr_ids_ok(p_primary(ts, pos, id), id),
    decreases ts.len() - pos, 1int,
{
    if 0 <= pos < ts.len() {
        let p1 = bump(ts, pos);
        match ts[pos].tok {
            TokV::LParen => if pos < p1 {
                lemma_p_expr_ids(ts, p1, id);
            },
            TokV::Ident(_) => if pos < p1 && ts[p1].tok == TokV::LParen {
                let p2 = bump(ts, p1);
                if p1 < p2 {
                    lemma_p_args_ids(ts, p2, id);
                    if let Ok((args, _p3, i3)) = p_args(ts, p2, id) {
                        lemma_exprs_widen(args, i3, i3 + 1);
                    }
                }
            },
            _ => {},
        }
    }
}

proof fn lemma_p_args_ids(ts: Seq<TokenV>, pos: int, id: int)
    requires
        id >= 0,
    ensures
        exprs_ids_ok(p_args(ts, pos, id), id),
    decreases ts.len() - pos, 7int,
{
    if 0 <= pos < ts.len() && ts[pos].tok != TokV::RParen {
        lemma_p_arg_list_ids(ts, pos, id);
    }
}

proof fn lemma_p_arg_list_ids(ts: Seq<TokenV>, pos: int, id: int)
    requires
        id >= 0,
    ensures
        exprs_ids_ok(p_arg_list(ts, pos, id), id),
    decreases ts.len() - pos, 6int,
{
    if 0 <= pos < ts.len() {
        lemma_p_expr_ids(ts, pos, id);
        if let Ok((e, p1, i1)) = p_expr(ts, pos, id) {
            if pos < p1 < ts.len() {
                let p2 = bump(ts, p1);
                if ts[p1].tok == TokV::Comma {
                    if p1 < p2 {
                        lemma_p_arg_list_ids(ts, p2, i1);
                        if let Ok((rest, _p3, i3)) = p_arg_list(ts, p2, i1) {
                            lemma_expr_widen(e, i1, i3);
                            assert((seq![e] + rest).drop_first() =~= rest);
                            assert((seq![e] + rest)[0] == e);
                            assert(exprs_ids_lt(seq![e] + rest, i3));
                        }
                    }
                } else {
                    assert(seq![e].drop_first() =~= Seq::<ExprV>::empty());
                    assert(seq![e][0] == e);
                    assert(exprs_ids_lt(Seq::<ExprV>::empty(), i1));
                    assert(exprs_ids_lt(seq![e], i1));
                }
            }
        }
    }
}

proof fn lemma_p_let_ids(ts: Seq<TokenV>, pos: int, id: int)
    requires
        id >= 0,
    ensures
        stmt_ids_ok(p_let(ts, pos, id), id),
{
    if 0 <= pos < ts.len() {
        let p1 = bump(ts, pos);
        let p2 = if ts[p1].tok == TokV::Mut { bump(ts, p1) } else { p1 };
        if let Ok((_name, _ns, p3)) = p_ident(ts, p2, "a variable name"@) {
            if let Ok((_ty, p4)) = p_let_ty(ts, p3) {
                if let Ok((_, p5)) = p_expect(ts, p4, TokV::Assign, "`=` (Ash variables must be initialised)"@) {
                    lemma_p_expr_ids(ts, p5, id);
                }
            }
        }
    }
}

proof fn lemma_p_return_ids(ts: Seq<TokenV>, pos: int, id: int)
    requires
        id >= 0,
    ensures
        stmt_ids_ok(p_return(ts, pos, id), id),
{
    if 0 <= pos < ts.len() {
        lemma_p_expr_ids(ts, bump(ts, pos), id);
    }
}

proof fn lemma_p_print_ids(ts: Seq<TokenV>, pos: int, id: int)
    requires
        id >= 0,
    ensures
        stmt_ids_ok(p_print(ts, pos, id), id),
{
    lemma_p_expr_ids(ts, bump(ts, bump(ts, pos)), id);
}

proof fn lemma_p_assign_ids(ts: Seq<TokenV>, pos: int, id: int)
    requires
        id >= 0,
    ensures
        stmt_ids_ok(p_assign(ts, pos, id), id),
{
    lemma_p_expr_ids(ts, bump(ts, bump(ts, pos)), id);
}

proof fn lemma_p_expr_stmt_ids(ts: Seq<TokenV>, pos: int, id: int)
    requires
        id >= 0,
    ensures
        stmt_ids_ok(p_expr_stmt(ts, pos, id), id),
{
    lemma_p_expr_ids(ts, pos, id);
}

proof fn lemma_p_if_ids(ts: Seq<TokenV>, pos: int, id: int)
    requires
        id >= 0,
    ensures
        stmt_ids_ok(p_if(ts, pos, id), id),
    decreases ts.len() - pos, 8int,
{
    if 0 <= pos < ts.len() {
        let p1 = bump(ts, pos);
        if pos < p1 {
            lemma_p_expr_ids(ts, p1, id);
            if let Ok((cond, p2, i2)) = p_expr(ts, p1, id) {
                if p1 < p2 < ts.len() {
                    lemma_p_block_ids(ts, p2, i2);
                    if let Ok((then, p3, i3)) = p_block(ts, p2, i2) {
                        if p2 < p3 < ts.len() {
                            lemma_expr_widen(cond, i2, i3);
                            let p4 = bump(ts, p3);
                            if ts[p3].tok == TokV::Else && p3 < p4 {
                                if ts[p4].tok == TokV::If {
                                    lemma_p_stmt_ids(ts, p4, i3);
                                    if let Ok((s, _p5, i5)) = p_stmt(ts, p4, i3) {
                                        lemma_expr_widen(cond, i3, i5);
                                        lemma_block_widen(then, i3, i5);
                                        assert(seq![s].drop_first() =~= Seq::<StmtV>::empty());
                                        assert(seq![s][0] == s);
                                        assert(stmts_ids_lt(Seq::<StmtV>::empty(), i5));
                                        assert(stmts_ids_lt(seq![s], i5));
                                    }
                                } else {
                                    lemma_p_block_ids(ts, p4, i3);
                                    if let Ok((_els, _p5, i5)) = p_block(ts, p4, i3) {
                                        lemma_expr_widen(cond, i3, i5);
                                        lemma_block_widen(then, i3, i5);
                                    }
                                }
                            }
                        }
                    }
                }
            }
        }
    }
}

proof fn lemma_p_while_ids(ts: Seq<TokenV>, pos: int, id: int)
    requires
        id >= 0,
    ensures
        stmt_ids_ok(p_while(ts, pos, id), id),
    decreases ts.len() - pos, 8int,
{
    if 0 <= pos < ts.len() {
        let p1 = bump(ts, pos);
        if pos < p1 {
            lemma_p_expr_ids(ts, p1, id);
            if let Ok((cond, p2, i2)) = p_expr(ts, p1, id) {
                if p1 < p2 < ts.len() {
                    lemma_p_block_ids(ts, p2, i2);
                    if let Ok((_body, _p3, i3)) = p_block(ts, p2, i2) {
                        lemma_expr_widen(cond, i2, i3);
                    }
                }
            }
        }
    }
}

proof fn lemma_p_stmt_ids(ts: Seq<TokenV>, pos: int, id: int)
    requires
        id >= 0,
    ensures
        stmt_ids_ok(p_stmt(ts, pos, id), id),
    decreases ts.len() - pos, 9int,
{
    if 0 <= pos < ts.len() {
        if ts[pos].tok == TokV::Let {
            lemma_p_let_ids(ts, pos, id);
        } else if ts[pos].tok == TokV::Return {
            lemma_p_return_ids(ts, pos, id);
        } else if ts[pos].tok == TokV::If {
            lemma_p_if_ids(ts, pos, id);
        } else if ts[pos].tok == TokV::While {
            lemma_p_while_ids(ts, pos, id);
        } else if pos + 1 < ts.len() && is_print(ts, pos) {
            lemma_p_print_ids(ts, pos, id);
        } else if pos + 1 < ts.len() && is_assign(ts, pos) {
            lemma_p_assign_ids(ts, pos, id);
        } else {
            lemma_p_expr_stmt_ids(ts, pos, id);
        }
    }
}

proof fn lemma_p_block_ids(ts: Seq<TokenV>, pos: int, id: int)
    requires
        id >= 0,
    ensures
        block_ids_ok(p_block(ts, pos, id), id),
    decreases ts.len() - pos, 11int,
{
    if 0 <= pos < ts.len() {
        if let Ok((start, p1)) = p_expect(ts, pos, TokV::LBrace, "`{`"@) {
            if pos < p1 {
                assert(stmts_ids_lt(Seq::<StmtV>::empty(), id));
                lemma_p_block_rest_ids(ts, p1, id, start, Seq::empty());
            }
        }
    }
}

proof fn lemma_p_block_rest_ids(ts: Seq<TokenV>, pos: int, id: int, start: Span, acc: Seq<StmtV>)
    requires
        id >= 0,
        stmts_ids_lt(acc, id),
    ensures
        block_ids_ok(p_block_rest(ts, pos, id, start, acc), id),
    decreases ts.len() - pos, 10int,
{
    if 0 <= pos < ts.len() && ts[pos].tok != TokV::RBrace && ts[pos].tok != TokV::Eof {
        lemma_p_stmt_ids(ts, pos, id);
        if let Ok((s, p1, i1)) = p_stmt(ts, pos, id) {
            if pos < p1 < ts.len() {
                lemma_stmts_widen(acc, id, i1);
                lemma_stmts_push(acc, s, i1);
                lemma_p_block_rest_ids(ts, p1, i1, start, acc.push(s));
            }
        }
    }
}

proof fn lemma_p_program_ids(ts: Seq<TokenV>, pos: int, id: int, acc: Seq<FnDeclV>)
    requires
        id >= 0,
        forall|i: int| 0 <= i < acc.len() ==> block_ids_lt(#[trigger] acc[i].body, id),
    ensures
        p_program(ts, pos, id, acc) is Ok ==> program_ids_ok(p_program(ts, pos, id, acc)->Ok_0),
    decreases ts.len() - pos,
{
    if 0 <= pos < ts.len() && ts[pos].tok != TokV::Eof && ts[pos].tok == TokV::Fn {
        if let Ok((_start, p1)) = p_expect(ts, pos, TokV::Fn, "`fn`"@) {
            if let Ok((_name, _ns, p2)) = p_ident(ts, p1, "a function name"@) {
                if let Ok((_, p3)) = p_expect(ts, p2, TokV::LParen, "`(` after the function name"@) {
                    if let Ok((_params, p4)) = p_param_list(ts, p3) {
                        if let Ok((_, p5)) = p_expect(ts, p4, TokV::RParen, "`)` after parameters"@) {
                            if let Ok((_ret, p6)) = p_ret(ts, p5) {
                                lemma_p_block_ids(ts, p6, id);
                            }
                        }
                    }
                }
            }
        }
        if let Ok((f, p1, i1)) = p_func(ts, pos, id) {
            if pos < p1 < ts.len() {
                assert forall|i: int| 0 <= i < acc.push(f).len() implies block_ids_lt(#[trigger] acc.push(f)[i].body, i1) by {
                    if i < acc.len() {
                        lemma_block_widen(acc[i].body, id, i1);
                    }
                }
                lemma_p_program_ids(ts, p1, i1, acc.push(f));
            }
        }
    }
}

/// Every expression of a parsed program has an id below the program's
/// expression count.
pub proof fn lemma_parse_ids(ts: Seq<TokenV>)
    requires
        spec_parse(ts) is Ok,
    ensures
        program_ids_ok(spec_parse(ts)->Ok_0),
{
    lemma_p_program_ids(ts, 0, 0, Seq::empty());
}

// ----------------------------------------------------------------- sizes --

/// Number of expression nodes in `e`.
pub open spec fn expr_cost(e: ExprV) -> nat
    decreases e,
{
    1 + match e.kind {
        ExprKindV::Unary(_, x) => expr_cost(*x),
        ExprKindV::Binary(_, a, b) => expr_cost(*a) + expr_cost(*b),
        ExprKindV::Call(_, args) => exprs_cost(args),
        _ => 0,
    }
}

pub open spec fn exprs_cost(s: Seq<ExprV>) -> nat
    decreases s,
{
    if s.len() == 0 {
        0
    } else {
        expr_cost(s[0]) + exprs_cost(s.drop_first())
    }
}

/// Number of statement, block and expression nodes in `s`.
pub open spec fn stmt_cost(s: StmtV) -> nat
    decreases s,
{
    1 + match s.kind {
        StmtKindV::Let { init, .. } => expr_cost(init),
        StmtKindV::Assign { value, .. } => expr_cost(value),
        StmtKindV::Expr(e) => expr_cost(e),
        StmtKindV::Return(v) => match v {
            Some(e) => expr_cost(e),
            None => 0,
        },
        StmtKindV::If { cond, then, els } => expr_cost(cond) + block_cost(then) + match els {
            Some(b) => block_cost(b),
            None => 0,
        },
        StmtKindV::While { cond, body } => expr_cost(cond) + block_cost(body),
        StmtKindV::Print(e) => expr_cost(e),
    }
}

pub open spec fn stmts_cost(s: Seq<StmtV>) -> nat
    decreases s,
{
    if s.len() == 0 {
        0
    } else {
        stmt_cost(s[0]) + stmts_cost(s.drop_first())
    }
}

pub open spec fn block_cost(b: BlockV) -> nat
    decreases b,
{
    1 + stmts_cost(b.stmts)
}

/// Number of parameters and nodes of a function.
pub open spec fn fn_cost(f: FnDeclV) -> nat {
    f.params.len() + block_cost(f.body)
}


/// A token other than `Eof` is followed by another token.
proof fn lemma_bump_advances(ts: Seq<TokenV>, pos: int)
    requires
        tokens_wf(ts),
        0 <= pos < ts.len(),
        ts[pos].tok != TokV::Eof,
    ensures
        bump(ts, pos) == pos + 1,
{
}

pub open spec fn expr_size_ok(r: PR<ExprV>, pos: int) -> bool {
    r is Ok ==> pos <= r->Ok_0.1 && expr_cost(r->Ok_0.0) <= r->Ok_0.1 - pos
}

pub open spec fn exprs_size_ok(r: PR<Seq<ExprV>>, pos: int) -> bool {
    r is Ok ==> pos <= r->Ok_0.1 && exprs_cost(r->Ok_0.0) <= r->Ok_0.1 - pos
}

pub open spec fn stmt_size_ok(r: PR<StmtV>, pos: int) -> bool {
    r is Ok ==> pos <= r->Ok_0.1 && stmt_cost(r->Ok_0.0) <= r->Ok_0.1 - pos
}

pub open spec fn block_size_ok(r: PR<BlockV>, pos: int) -> bool {
    r is Ok ==> pos <= r->Ok_0.1 && block_cost(r->Ok_0.0) <= r->Ok_0.1 - pos
}

proof fn lemma_p_expr_size(ts: Seq<TokenV>, pos: int, id: int)
    requires
        tokens_wf(ts),
    ensures
        expr_size_ok(p_expr(ts, pos, id), pos),
    decreases ts.len() - pos, 5int,
{
    if 0 <= pos < ts.len() {
        lemma_p_binary_size(ts, pos, id, 0);
    }
}

proof fn lemma_p_binary_size(ts: Seq<TokenV>, pos: int, id: int, min_prec: int)
    requires
        tokens_wf(ts),
    ensures
        expr_size_ok(p_binary(ts, pos, id, min_prec), pos),
    decreases ts.len() - pos, 4int,
{
    if 0 <= pos < ts.len() {
        lemma_p_unary_size(ts, pos, id);
        if let Ok((lhs, p1, i1)) = p_unary(ts, pos, id) {
            if pos < p1 < ts.len() {
                lemma_p_binary_rest_size(ts, p1, i1, min_prec, lhs);
            }
        }
    }
}

proof fn lemma_p_binary_rest_size(ts: Seq<TokenV>, pos: int, id: int, min_prec: int, lhs: ExprV)
    requires
        tokens_wf(ts),
    ensures
        ({
            let r = p_binary_rest(ts, pos, id, min_prec, lhs);
            r is Ok ==> pos <= r->Ok_0.1 && expr_cost(r->Ok_0.0) <= expr_cost(lhs) + r->Ok_0.1 - pos
        }),
    decreases ts.len() - pos, 3int,
{
    if 0 <= pos < ts.len() {
        if let Some((op, prec)) = binop_of(ts[pos].tok) {
            let p1 = bump(ts, pos);
            if prec >= min_prec && pos < p1 {
                lemma_p_binary_size(ts, p1, id, prec + 1);
                if let Ok((rhs, p2, i2)) = p_binary(ts, p1, id, prec + 1) {
                    if p1 < p2 < ts.len() {
                        let e = ExprV {
                            id: i2,
                            kind: ExprKindV::Binary(op, Box::new(lhs), Box::new(rhs)),
                            span: lhs.span.spec_to(rhs.span),
                        };
                        lemma_p_binary_rest_size(ts, p2, i2 + 1, min_prec, e);
                    }
                }
            }
        }
    }
}

proof fn lemma_p_unary_size(ts: Seq<TokenV>, pos: int, id: int)
    requires
        tokens_wf(ts),
    ensures
        expr_size_ok(p_unary(ts, pos, id), pos),
    decreases ts.len() - pos, 2int,
{
    if 0 <= pos < ts.len() {
        let p1 = bump(ts, pos);
        if ts[pos].tok == TokV::Minus || ts[pos].tok == TokV::Bang {
            if pos < p1 {
                lemma_p_unary_size(ts, p1, id);
            }
        } else {
            lemma_p_primary_size(ts, pos, id);
        }
    }
}

proof fn lemma_p_primary_size(ts: Seq<TokenV>, pos: int, id: int)
    requires
        tokens_wf(ts),
    ensures
        expr_size_ok(p_primary(ts, pos, id), pos),
    decreases ts.len() - pos, 1int,
{
    if 0 <= pos < ts.len() {
        let p1 = bump(ts, pos);
        if ts[pos].tok != TokV::Eof {
            lemma_bump_advances(ts, pos);
        }
        match ts[pos].tok {
            TokV::LParen => if pos < p1 {
                lemma_p_expr_size(ts, p1, id);
            },
            TokV::Ident(_) => if pos < p1 && ts[p1].tok == TokV::LParen {
                let p2 = bump(ts, p1);
                if p1 < p2 {
                    lemma_p_args_size(ts, p2, id);
                }
            },
            _ => {},
        }
    }
}

proof fn lemma_p_args_size(ts: Seq<TokenV>, pos: int, id: int)
    requires
        tokens_wf(ts),
    ensures
        exprs_size_ok(p_args(ts, pos, id), pos),
    decreases ts.len() - pos, 7int,
{
    if 0 <= pos < ts.len() && ts[pos].tok != TokV::RParen {
        lemma_p_arg_list_size(ts, pos, id);
    }
}

proof fn lemma_p_arg_list_size(ts: Seq<TokenV>, pos: int, id: int)
    requires
        tokens_wf(ts),
    ensures
        exprs_size_ok(p_arg_list(ts, pos, id), pos),
    decreases ts.len() - pos, 6int,
{
    if 0 <= pos < ts.len() {
        lemma_p_expr_size(ts, pos, id);
        if let Ok((e, p1, i1)) = p_expr(ts, pos, id) {
            if pos < p1 < ts.len() {
                let p2 = bump(ts, p1);
                if ts[p1].tok == TokV::Comma {
                    lemma_bump_advances(ts, p1);
                    if p1 < p2 {
                        lemma_p_arg_list_size(ts, p2, i1);
                        if let Ok((rest, _p3, _i3)) = p_arg_list(ts, p2, i1) {
                            assert((seq![e] + rest).drop_first() =~= rest);
                            assert((seq![e] + rest)[0] == e);
                            assert(exprs_cost(seq![e] + rest) == expr_cost(e) + exprs_cost(rest));
                        }
                    }
                } else {
                    assert(seq![e].drop_first() =~= Seq::<ExprV>::empty());
                    assert(seq![e][0] == e);
                    assert(exprs_cost(Seq::<ExprV>::empty()) == 0);
                    assert(exprs_cost(seq![e]) == expr_cost(e));
                }
            }
        }
    }
}

proof fn lemma_p_let_size(ts: Seq<TokenV>, pos: int, id: int)
    requires
        tokens_wf(ts),
    ensures
        stmt_size_ok(p_let(ts, pos, id), pos),
{
    if 0 <= pos < ts.len() {
        let p1 = bump(ts, pos);
        let p2 = if ts[p1].tok == TokV::Mut { bump(ts, p1) } else { p1 };
        if let Ok((_name, _ns, p3)) = p_ident(ts, p2, "a variable name"@) {
            if let Ok((_ty, p4)) = p_let_ty(ts, p3) {
                if let Ok((_, p5)) = p_expect(ts, p4, TokV::Assign, "`=` (Ash variables must be initialised)"@) {
                    lemma_p_expr_size(ts, p5, id);
                    if let Ok((_init, p6, _i6)) = p_expr(ts, p5, id) {
                        if 0 <= p6 < ts.len() && ts[p6].tok == TokV::Semi {
                            lemma_bump_advances(ts, p6);
                        }
                    }
                }
            }
        }
    }
}

proof fn lemma_p_return_size(ts: Seq<TokenV>, pos: int, id: int)
    requires
        tokens_wf(ts),
    ensures
        stmt_size_ok(p_return(ts, pos, id), pos),
{
    if 0 <= pos < ts.len() {
        let p1 = bump(ts, pos);
        if ts[p1].tok == TokV::Semi && pos < p1 {
            lemma_bump_advances(ts, p1);
        }
        lemma_p_expr_size(ts, p1, id);
        if let Ok((_e, p2, _i2)) = p_expr(ts, p1, id) {
            if 0 <= p2 < ts.len() && ts[p2].tok == TokV::Semi {
                lemma_bump_advances(ts, p2);
            }
        }
    }
}

proof fn lemma_p_print_size(ts: Seq<TokenV>, pos: int, id: int)
    requires
        tokens_wf(ts),
    ensures
        stmt_size_ok(p_print(ts, pos, id), pos),
{
    let p2 = bump(ts, bump(ts, pos));
    lemma_p_expr_size(ts, p2, id);
    if let Ok((_e, p3, _i3)) = p_expr(ts, p2, id) {
        if 0 <= p3 < ts.len() && ts[p3].tok == TokV::RParen {
            lemma_bump_advances(ts, p3);
            let p4 = bump(ts, p3);
            if ts[p4].tok == TokV::Semi {
                lemma_bump_advances(ts, p4);
            }
        }
    }
}

proof fn lemma_p_assign_size(ts: Seq<TokenV>, pos: int, id: int)
    requires
        tokens_wf(ts),
    ensures
        stmt_size_ok(p_assign(ts, pos, id), pos),
{
    let p2 = bump(ts, bump(ts, pos));
    lemma_p_expr_size(ts, p2, id);
    if let Ok((_e, p3, _i3)) = p_expr(ts, p2, id) {
        if 0 <= p3 < ts.len() && ts[p3].tok == TokV::Semi {
            lemma_bump_advances(ts, p3);
        }
    }
}

proof fn lemma_p_expr_stmt_size(ts: Seq<TokenV>, pos: int, id: int)
    requires
        tokens_wf(ts),
    ensures
        stmt_size_ok(p_expr_stmt(ts, pos, id), pos),
{
    lemma_p_expr_size(ts, pos, id);
    if let Ok((_e, p2, _i2)) = p_expr(ts, pos, id) {
        if 0 <= p2 < ts.len() && ts[p2].tok == TokV::Semi {
            lemma_bump_advances(ts, p2);
        }
    }
}

#[verifier::rlimit(50)]
proof fn lemma_p_if_size(ts: Seq<TokenV>, pos: int, id: int)
    requires
        tokens_wf(ts),
    ensures
        stmt_size_ok(p_if(ts, pos, id), pos),
    decreases ts.len() - pos, 8int,
{
    if 0 <= pos < ts.len() {
        let p1 = bump(ts, pos);
        if pos < p1 {
            lemma_p_expr_size(ts, p1, id);
            if let Ok((_cond, p2, i2)) = p_expr(ts, p1, id) {
                if p1 < p2 < ts.len() {
                    lemma_p_block_size(ts, p2, i2);
                    if let Ok((_then, p3, i3)) = p_block(ts, p2, i2) {
                        if p2 < p3 < ts.len() {
                            let p4 = bump(ts, p3);
                            if ts[p3].tok == TokV::Else && p3 < p4 {
                                lemma_bump_advances(ts, p3);
                                if ts[p4].tok == TokV::If {
                                    lemma_p_stmt_size(ts, p4, i3);
                                    if let Ok((s, _p5, _i5)) = p_stmt(ts, p4, i3) {
                                        assert(seq![s].drop_first() =~= Seq::<StmtV>::empty());
                                        assert(seq![s][0] == s);
                                        assert(stmts_cost(Seq::<StmtV>::empty()) == 0);
                                        assert(stmts_cost(seq![s]) == stmt_cost(s));
                                    }
                                } else {
                                    lemma_p_block_size(ts, p4, i3);
                                }
                            }
                        }
                    }
                }
            }
        }
    }
}

proof fn lemma_p_while_size(ts: Seq<TokenV>, pos: int, id: int)
    requires
        tokens_wf(ts),
    ensures
        stmt_size_ok(p_while(ts, pos, id), pos),
    decreases ts.len() - pos, 8int,
{
    if 0 <= pos < ts.len() {
        let p1 = bump(ts, pos);
        if pos < p1 {
            lemma_p_expr_size(ts, p1, id);
            if let Ok((_cond, p2, i2)) = p_expr(ts, p1, id) {
                if p1 < p2 < ts.len() {
                    lemma_p_block_size(ts, p2, i2);
                }
            }
        }
    }
}

proof fn lemma_p_stmt_size(ts: Seq<TokenV>, pos: int, id: int)
    requires
        tokens_wf(ts),
    ensures
        stmt_size_ok(p_stmt(ts, pos, id), pos),
    decreases ts.len() - pos, 9int,
{
    if 0 <= pos < ts.len() {
        if ts[pos].tok == TokV::Let {
            lemma_p_let_size(ts, pos, id);
        } else if ts[pos].tok == TokV::Return {
            lemma_p_return_size(ts, pos, id);
        } else if ts[pos].tok == TokV::If {
            lemma_p_if_size(ts, pos, id);
        } else if ts[pos].tok == TokV::While {
            lemma_p_while_size(ts, pos, id);
        } else if pos + 1 < ts.len() && is_print(ts, pos) {
            lemma_p_print_size(ts, pos, id);
        } else if pos + 1 < ts.len() && is_assign(ts, pos) {
            lemma_p_assign_size(ts, pos, id);
        } else {
            lemma_p_expr_stmt_size(ts, pos, id);
        }
    }
}

proof fn lemma_stmts_cost_push(s: Seq<StmtV>, x: StmtV)
    ensures
        stmts_cost(s.push(x)) == stmts_cost(s) + stmt_cost(x),
    decreases s.len(),
{
    if s.len() > 0 {
        assert(s.push(x).drop_first() =~= s.drop_first().push(x));
        assert(s.push(x)[0] == s[0]);
        lemma_stmts_cost_push(s.drop_first(), x);
        assert(stmts_cost(s.push(x)) == stmt_cost(s[0]) + stmts_cost(s.drop_first().push(x)));
    } else {
        assert(s.push(x).drop_first() =~= Seq::<StmtV>::empty());
        assert(s.push(x)[0] == x);
        assert(stmts_cost(Seq::<StmtV>::empty()) == 0);
        assert(stmts_cost(s.push(x)) == stmt_cost(x) + stmts_cost(Seq::<StmtV>::empty()));
    }
}

proof fn lemma_p_block_size(ts: Seq<TokenV>, pos: int, id: int)
    requires
        tokens_wf(ts),
    ensures
        block_size_ok(p_block(ts, pos, id), pos),
    decreases ts.len() - pos, 11int,
{
    if 0 <= pos < ts.len() {
        if let Ok((start, p1)) = p_expect(ts, pos, TokV::LBrace, "`{`"@) {
            lemma_bump_advances(ts, pos);
            if pos < p1 {
                lemma_p_block_rest_size(ts, p1, id, start, Seq::empty());
            }
        }
    }
}

proof fn lemma_p_block_rest_size(ts: Seq<TokenV>, pos: int, id: int, start: Span, acc: Seq<StmtV>)
    requires
        tokens_wf(ts),
    ensures
        ({
            let r = p_block_rest(ts, pos, id, start, acc);
            r is Ok ==> pos <= r->Ok_0.1 && block_cost(r->Ok_0.0) <= 1 + stmts_cost(acc) + r->Ok_0.1 - pos
        }),
    decreases ts.len() - pos, 10int,
{
    if 0 <= pos < ts.len() {
        if ts[pos].tok == TokV::RBrace {
            lemma_bump_advances(ts, pos);
        } else if ts[pos].tok != TokV::Eof {
            lemma_p_stmt_size(ts, pos, id);
            if let Ok((s, p1, i1)) = p_stmt(ts, pos, id) {
                if pos < p1 < ts.len() {
                    lemma_stmts_cost_push(acc, s);
                    lemma_p_block_rest_size(ts, p1, i1, start, acc.push(s));
                }
            }
        }
    }
}

proof fn lemma_p_params_size(ts: Seq<TokenV>, pos: int)
    requires
        tokens_wf(ts),
    ensures
        p_params(ts, pos) is Ok ==> pos <= p_params(ts, pos)->Ok_0.1 && p_params(ts, pos)->Ok_0.0.len() <= p_params(ts, pos)->Ok_0.1 - pos,
    decreases ts.len() - pos,
{
    if 0 <= pos < ts.len() {
        if let Ok((_name, _span, p1)) = p_ident(ts, pos, "a parameter name"@) {
            lemma_bump_advances(ts, pos);
            if let Ok((_, p2)) = p_expect(ts, p1, TokV::Colon, "`:` followed by the parameter type"@) {
                lemma_bump_advances(ts, p1);
                if let Ok((_ty, p3)) = p_ty(ts, p2) {
                    lemma_bump_advances(ts, p2);
                    let p4 = bump(ts, p3);
                    if ts[p3].tok == TokV::Comma && pos < p4 {
                        lemma_p_params_size(ts, p4);
                    }
                }
            }
        }
    }
}

/// A function's size is bounded by the tokens it spans.
#[verifier::rlimit(60)]
proof fn lemma_p_func_size(ts: Seq<TokenV>, pos: int, id: int)
    requires
        tokens_wf(ts),
        0 <= pos < ts.len(),
    ensures
        p_func(ts, pos, id) is Ok ==> fn_cost(p_func(ts, pos, id)->Ok_0.0) <= p_func(ts, pos, id)->Ok_0.1 - pos,
{
    if let Ok((_start, p1)) = p_expect(ts, pos, TokV::Fn, "`fn`"@) {
        lemma_bump_advances(ts, pos);
        if let Ok((_name, _ns, p2)) = p_ident(ts, p1, "a function name"@) {
            lemma_bump_advances(ts, p1);
            if let Ok((_, p3)) = p_expect(ts, p2, TokV::LParen, "`(` after the function name"@) {
                lemma_bump_advances(ts, p2);
                if ts[p3].tok != TokV::RParen {
                    lemma_p_params_size(ts, p3);
                }
                if let Ok((_params, p4)) = p_param_list(ts, p3) {
                    if let Ok((_, p5)) = p_expect(ts, p4, TokV::RParen, "`)` after parameters"@) {
                        if 0 <= p4 < ts.len() {
                            lemma_bump_advances(ts, p4);
                        }
                        if let Ok((_ret, p6)) = p_ret(ts, p5) {
                            if ts[p5].tok == TokV::Arrow {
                                lemma_bump_advances(ts, p5);
                                let q = bump(ts, p5);
                                if ts[q].tok != TokV::Eof && 0 <= q < ts.len() {
                                    lemma_bump_advances(ts, q);
                                }
                            }
                            lemma_p_block_size(ts, p6, id);
                        }
                    }
                }
            }
        }
    }
}

proof fn lemma_p_program_size(ts: Seq<TokenV>, pos: int, id: int, acc: Seq<FnDeclV>)
    requires
        tokens_wf(ts),
        0 <= pos,
        forall|i: int| 0 <= i < acc.len() ==> fn_cost(#[trigger] acc[i]) <= ts.len(),
    ensures
        p_program(ts, pos, id, acc) is Ok ==> forall|i: int|
            0 <= i < p_program(ts, pos, id, acc)->Ok_0.funcs.len() ==> fn_cost(#[trigger] p_program(ts, pos, id, acc)->Ok_0.funcs[i]) <= ts.len(),
    decreases ts.len() - pos,
{
    if 0 <= pos < ts.len() && ts[pos].tok != TokV::Eof && ts[pos].tok == TokV::Fn {
        lemma_p_func_size(ts, pos, id);
        if let Ok((f, p1, i1)) = p_func(ts, pos, id) {
            if pos < p1 < ts.len() {
                assert forall|i: int| 0 <= i < acc.push(f).len() implies fn_cost(#[trigger] acc.push(f)[i]) <= ts.len() by {
                    if i < acc.len() {
                        assert(acc.push(f)[i] == acc[i]);
                    }
                }
                lemma_p_program_size(ts, p1, i1, acc.push(f));
            }
        }
    }
}

/// Each function of a parsed program has no more nodes than there are tokens.
pub proof fn lemma_parse_size(ts: Seq<TokenV>)
    requires
        tokens_wf(ts),
        spec_parse(ts) is Ok,
    ensures
        forall|i: int|
            0 <= i < spec_parse(ts)->Ok_0.funcs.len() ==> fn_cost(#[trigger] spec_parse(ts)->Ok_0.funcs[i]) <= ts.len(),
{
    lemma_p_program_size(ts, 0, 0, Seq::empty());
}


// ------------------------------------------------------------- printing --

/// `true` or `false`.
pub open spec fn bool_word(b: bool) -> Seq<char> {
    if b { "true"@ } else { "false"@ }
}

/// An expression printed fully parenthesised.
pub open spec fn expr_text(e: ExprV) -> Seq<char>
    decreases e,
{
    match e.kind {
        ExprKindV::Int(n) => int_text(n as int),
        ExprKindV::Bool(b) => bool_word(b),
        ExprKindV::Str(s) => debug_text(s),
        ExprKindV::Var(v) => v,
        ExprKindV::Unary(op, x) => "("@ + (if op == UnOp::Neg { "-"@ } else { "!"@ }) + expr_text(*x) + ")"@,
        ExprKindV::Binary(op, a, b) => "("@ + expr_text(*a) + " "@ + binop_text(op) + " "@ + expr_text(*b) + ")"@,
        ExprKindV::Call(f, args) => f + "("@ + args_text(args) + ")"@,
    }
}

/// Arguments separated by `", "`.
pub open spec fn args_text(args: Seq<ExprV>) -> Seq<char>
    decreases args,
{
    if args.len() == 0 {
        Seq::empty()
    } else if args.len() == 1 {
        expr_text(args[0])
    } else {
        expr_text(args[0]) + ", "@ + args_text(args.drop_first())
    }
}

/// Prints an expression fully parenthesised.
pub fn dump_expr(e: &Expr) -> (s: String)
    ensures
        s@ == expr_text(e@),
    decreases e,
{
    match &e.kind {
        ExprKind::Int(n) => {
            let mut s = String::new();
            push_int(&mut s, *n);
            s
        },
        ExprKind::Bool(b) => String::from_str(if *b { "true" } else { "false" }),
        ExprKind::Str(s) => debug_str(s.as_str()),
        ExprKind::Var(v) => v.clone(),
        ExprKind::Unary(op, x) => {
            let mut s = String::from_str("(");
            s.append(if *op == UnOp::Neg { "-" } else { "!" });
            let inner = dump_expr(x);
            s.append(inner.as_str());
            s.append(")");
            s
        },
        ExprKind::Binary(op, a, b) => {
            let mut s = String::from_str("(");
            let x = dump_expr(a);
            s.append(x.as_str());
            s.append(" ");
            s.append(op.text());
            s.append(" ");
            let y = dump_expr(b);
            s.append(y.as_str());
            s.append(")");
            s
        },
        ExprKind::Call(f, args) => {
            let mut s = f.clone();
            s.append("(");
            let a = dump_args(args);
            s.append(a.as_str());
            s.append(")");
            s
        },
    }
}

fn dump_args(args: &Vec<Expr>) -> (s: String)
    ensures
        s@ == args_text(exprs_v(args@)),
    decreases args,
{
    let ghost av = exprs_v(args@);
    proof {
        lemma_exprs_v(args@);
    }
    let mut s = String::new();
    let n = args.len();
    if n == 0 {
        return s;
    }
    let mut k: usize = n;
    // Build from the back: the text of args[k..] is args_text(av.skip(k)).
    let last = dump_expr(&args[n - 1]);
    let ghost tail = av.skip(n - 1);
    assert(tail =~= seq![av[n - 1]]);
    assert(tail.len() == 1);
    let mut acc = last;
    assert(acc@ == args_text(av.skip(n - 1)));
    k = n - 1;
    while k > 0
        invariant
            k < n,
            n == args@.len(),
            av == exprs_v(args@),
            av.len() == n,
            forall|j: int| 0 <= j < n ==> #[trigger] av[j] == expr_v(args@[j]),
            acc@ == args_text(av.skip(k as int)),
        decreases k,
    {
        let mut t = dump_expr(&args[k - 1]);
        t.append(", ");
        t.append(acc.as_str());
        proof {
            assert(av.skip(k - 1).drop_first() =~= av.skip(k as int));
            assert(av.skip(k - 1)[0] == av[k - 1]);
            assert(av.skip(k - 1).len() > 1);
        }
        acc = t;
        k = k - 1;
    }
    assert(av.skip(0) =~= av);
    acc
}

/// The indentation of a statement at `depth`.
pub open spec fn indent(depth: nat) -> Seq<char>
    decreases depth,
{
    if depth == 0 {
        Seq::empty()
    } else {
        indent((depth - 1) as nat) + "  "@
    }
}

/// A statement printed at `depth`, one line per statement, nested blocks
/// one level deeper.
pub open spec fn stmt_text(s: StmtV, depth: nat) -> Seq<char>
    decreases s,
{
    let pad = indent(depth);
    match s.kind {
        StmtKindV::Let { name, mutable, ty, init, .. } => pad + "let "@ + (if mutable { "mut "@ } else { Seq::empty() }) + name
            + (match ty {
                Some(t) => ": "@ + ty_text(t) + " "@,
                None => Seq::empty(),
            }) + "= "@ + expr_text(init) + seq!['\n'],
        StmtKindV::Assign { name, value, .. } => pad + name + " = "@ + expr_text(value) + seq!['\n'],
        StmtKindV::Expr(e) => pad + expr_text(e) + seq!['\n'],
        StmtKindV::Return(v) => pad + "return "@ + (match v {
            Some(e) => expr_text(e),
            None => Seq::empty(),
        }) + seq!['\n'],
        StmtKindV::Print(e) => pad + "print "@ + expr_text(e) + seq!['\n'],
        StmtKindV::If { cond, then, els } => pad + "if "@ + expr_text(cond) + seq!['\n'] + block_text(then, depth + 1) + (match els {
            Some(b) => pad + "else"@ + seq!['\n'] + block_text(b, depth + 1),
            None => Seq::empty(),
        }),
        StmtKindV::While { cond, body } => pad + "while "@ + expr_text(cond) + seq!['\n'] + block_text(body, depth + 1),
    }
}

pub open spec fn stmts_text(s: Seq<StmtV>, depth: nat) -> Seq<char>
    decreases s,
{
    if s.len() == 0 {
        Seq::empty()
    } else {
        stmt_text(s[0], depth) + stmts_text(s.drop_first(), depth)
    }
}

pub open spec fn block_text(b: BlockV, depth: nat) -> Seq<char>
    decreases b,
{
    stmts_text(b.stmts, depth)
}

/// Parameters `name: type` separated by `", "`.
pub open spec fn params_text(ps: Seq<ParamV>) -> Seq<char>
    decreases ps.len(),
{
    if ps.len() == 0 {
        Seq::empty()
    } else if ps.len() == 1 {
        ps[0].name + ": "@ + ty_text(ps[0].ty)
    } else {
        ps[0].name + ": "@ + ty_text(ps[0].ty) + ", "@ + params_text(ps.drop_first())
    }
}

/// A program printed as an indented tree: one header line per function,
/// then its statements.
pub open spec fn program_text(fs: Seq<FnDeclV>) -> Seq<char>
    decreases fs.len(),
{
    if fs.len() == 0 {
        Seq::empty()
    } else {
        let f = fs.last();
        program_text(fs.drop_last()) + "fn "@ + f.name + "("@ + params_text(f.params) + ") -> "@ + ty_text(f.ret) + seq!['\n']
            + block_text(f.body, 1)
    }
}


/// One more level of indentation.
fn deeper(pad: &str, depth: Ghost<nat>) -> (s: String)
    requires
        pad@ == indent(depth@),
    ensures
        s@ == indent(depth@ + 1),
{
    let mut s = String::from_str(pad);
    s.append("  ");
    s
}

#[verifier::rlimit(60)]
fn dump_stmt(st: &Stmt, pad: &str, depth: Ghost<nat>, s: &mut String)
    requires
        pad@ == indent(depth@),
    ensures
        final(s)@ == old(s)@ + stmt_text(st@, depth@),
    decreases st, 1int,
{
    let ghost start = s@;
    match &st.kind {
        StmtKind::Let { name, mutable, ty, init, .. } => {
            s.append(pad);
            s.append("let ");
            if *mutable {
                s.append("mut ");
            }
            s.append(name.as_str());
            match ty {
                Some(t) => {
                    s.append(": ");
                    s.append(t.text());
                    s.append(" ");
                },
                None => {},
            }
            s.append("= ");
            let e = dump_expr(init);
            s.append(e.as_str());
            push_char(s, '\n');
        },
        StmtKind::Assign { name, value, .. } => {
            s.append(pad);
            s.append(name.as_str());
            s.append(" = ");
            let e = dump_expr(value);
            s.append(e.as_str());
            push_char(s, '\n');
        },
        StmtKind::Expr(x) => {
            s.append(pad);
            let e = dump_expr(x);
            s.append(e.as_str());
            push_char(s, '\n');
        },
        StmtKind::Return(v) => {
            s.append(pad);
            s.append("return ");
            match v {
                Some(x) => {
                    let e = dump_expr(x);
                    s.append(e.as_str());
                },
                None => {},
            }
            push_char(s, '\n');
        },
        StmtKind::Print(x) => {
            s.append(pad);
            s.append("print ");
            let e = dump_expr(x);
            s.append(e.as_str());
            push_char(s, '\n');
        },
        StmtKind::If { cond, then, els } => {
            s.append(pad);
            s.append("if ");
            let e = dump_expr(cond);
            s.append(e.as_str());
            push_char(s, '\n');
            let inner = deeper(pad, depth);
            dump_block(then, inner.as_str(), Ghost(depth@ + 1), s);
            match els {
                Some(b) => {
                    s.append(pad);
                    s.append("else");
                    push_char(s, '\n');
                    let inner = deeper(pad, depth);
                    dump_block(b, inner.as_str(), Ghost(depth@ + 1), s);
                },
                None => {},
            }
        },
        StmtKind::While { cond, body } => {
            s.append(pad);
            s.append("while ");
            let e = dump_expr(cond);
            s.append(e.as_str());
            push_char(s, '\n');
            let inner = deeper(pad, depth);
            dump_block(body, inner.as_str(), Ghost(depth@ + 1), s);
        },
    }
    assert(s@ =~= start + stmt_text(st@, depth@));
}

fn dump_block(b: &Block, pad: &str, depth: Ghost<nat>, s: &mut String)
    requires
        pad@ == indent(depth@),
    ensures
        final(s)@ == old(s)@ + block_text(b@, depth@),
    decreases b, 2int,
{
    let ghost start = s@;
    let ghost sv = stmts_v(b.stmts@);
    proof {
        lemma_stmts_v(b.stmts@);
    }
    let mut k: usize = 0;
    assert(sv.skip(0) =~= sv);
    while k < b.stmts.len()
        invariant
            k <= b.stmts@.len(),
            pad@ == indent(depth@),
            sv == stmts_v(b.stmts@),
            sv.len() == b.stmts@.len(),
            forall|j: int| 0 <= j < b.stmts@.len() ==> #[trigger] sv[j] == stmt_v(b.stmts@[j]),
            s@ + stmts_text(sv.skip(k as int), depth@) == start + stmts_text(sv, depth@),
        decreases b.stmts@.len() - k,
    {
        let ghost before = s@;
        dump_stmt(&b.stmts[k], pad, depth, s);
        proof {
            assert(sv.skip(k as int).drop_first() =~= sv.skip(k + 1));
            assert(sv.skip(k as int)[0] == sv[k as int]);
            assert(before + stmts_text(sv.skip(k as int), depth@) =~= s@ + stmts_text(sv.skip(k + 1), depth@));
        }
        k = k + 1;
    }
    assert(sv.skip(k as int) =~= Seq::<StmtV>::empty());
    assert(s@ =~= start + block_text(b@, depth@));
}

fn dump_params(ps: &Vec<Param>) -> (s: String)
    ensures
        s@ == params_text(ps@.map_values(|p: Param| p@)),
{
    let ghost pv = ps@.map_values(|p: Param| p@);
    let n = ps.len();
    if n == 0 {
        return String::new();
    }
    let mut acc = ps[n - 1].name.clone();
    acc.append(": ");
    acc.append(ps[n - 1].ty.text());
    proof {
        assert(pv.skip(n - 1).len() == 1);
        assert(pv.skip(n - 1)[0] == pv[n - 1]);
    }
    let mut k: usize = n - 1;
    while k > 0
        invariant
            k < n,
            n == ps@.len(),
            pv == ps@.map_values(|p: Param| p@),
            pv.len() == n,
            acc@ == params_text(pv.skip(k as int)),
        decreases k,
    {
        let mut t = ps[k - 1].name.clone();
        t.append(": ");
        t.append(ps[k - 1].ty.text());
        t.append(", ");
        t.append(acc.as_str());
        proof {
            assert(pv.skip(k - 1).drop_first() =~= pv.skip(k as int));
            assert(pv.skip(k - 1)[0] == pv[k - 1]);
        }
        acc = t;
        k = k - 1;
    }
    assert(pv.skip(0) =~= pv);
    acc
}

/// Prints a program as an indented tree.
pub fn dump(p: &Program) -> (s: String)
    ensures
        s@ == program_text(p@.funcs),
{
    let mut s = String::new();
    let ghost fs = p@.funcs;
    let mut i: usize = 0;
    assert(fs.take(0) =~= Seq::<FnDeclV>::empty());
    while i < p.funcs.len()
        invariant
            i <= p.funcs@.len(),
            fs == p@.funcs,
            fs.len() == p.funcs@.len(),
            s@ == program_text(fs.take(i as int)),
        decreases p.funcs@.len() - i,
    {
        let f = &p.funcs[i];
        assert(fs[i as int] == f@);
        s.append("fn ");
        s.append(f.name.as_str());
        s.append("(");
        let ps = dump_params(&f.params);
        s.append(ps.as_str());
        s.append(") -> ");
        s.append(f.ret.text());
        push_char(&mut s, '\n');
        proof {
            reveal_with_fuel(indent, 2);
        }
        dump_block(&f.body, "  ", Ghost(1nat), &mut s);
        proof {
            assert(fs.take(i + 1).drop_last() =~= fs.take(i as int));
            assert(fs.take(i + 1).last() == f@);
        }
        i = i + 1;
    }
    assert(fs.take(i as int) =~= fs);
    s
}

// -------------------------------------------------------------- parsing --

/// A token without contents (a keyword, punctuation, or `Eof`).
pub open spec fn simple_tok(t: TokV) -> bool {
    !(t is Ident) && !(t is Int) && !(t is Str)
}

struct Parser<'t> {
    toks: &'t [Token],
    pos: usize,
    next_id: usize,
}

pub open spec fn pr<T: View>(r: Result<T, Diagnostic>, pos: usize, id: usize) -> PR<T::V> {
    match r {
        Ok(v) => Ok((v@, pos as int, id as int)),
        Err(d) => Err(d@),
    }
}

pub open spec fn pr_args(r: Result<Vec<Expr>, Diagnostic>, pos: usize, id: usize) -> PR<Seq<ExprV>> {
    match r {
        Ok(v) => Ok((exprs_v(v@), pos as int, id as int)),
        Err(d) => Err(d@),
    }
}

impl<'t> Parser<'t> {
    spec fn ts(&self) -> Seq<TokenV> {
        tokens_view(self.toks@)
    }

    spec fn inv(&self) -> bool {
        &&& tokens_wf(self.ts())
        &&& self.toks@.len() <= usize::MAX
        &&& self.pos < self.toks@.len()
        &&& self.next_id <= self.pos
    }

    /// Parsing moved forward, handing out no more ids than tokens consumed.
    spec fn advanced(&self, old: &Self) -> bool {
        &&& old.pos < self.pos
        &&& self.next_id - old.next_id <= self.pos - old.pos
        &&& old.next_id <= self.next_id
    }

    fn peek(&self) -> (t: &Tok)
        requires
            self.inv(),
        ensures
            t@ == self.ts()[self.pos as int].tok,
    {
        &self.toks[self.pos].tok
    }

    fn peek_span(&self) -> (s: Span)
        requires
            self.inv(),
        ensures
            s == self.ts()[self.pos as int].span,
    {
        self.toks[self.pos].span
    }

    fn at(&self, t: &Tok) -> (r: bool)
        requires
            self.inv(),
            simple_tok(t@),
        ensures
            r == (self.ts()[self.pos as int].tok == t@),
    {
        match (&self.toks[self.pos].tok, t) {
            (Tok::Fn, Tok::Fn) => true,
            (Tok::Let, Tok::Let) => true,
            (Tok::Mut, Tok::Mut) => true,
            (Tok::If, Tok::If) => true,
            (Tok::Else, Tok::Else) => true,
            (Tok::While, Tok::While) => true,
            (Tok::Return, Tok::Return) => true,
            (Tok::True, Tok::True) => true,
            (Tok::False, Tok::False) => true,
            (Tok::LParen, Tok::LParen) => true,
            (Tok::RParen, Tok::RParen) => true,
            (Tok::LBrace, Tok::LBrace) => true,
            (Tok::RBrace, Tok::RBrace) => true,
            (Tok::Comma, Tok::Comma) => true,
            (Tok::Colon, Tok::Colon) => true,
            (Tok::Semi, Tok::Semi) => true,
            (Tok::Arrow, Tok::Arrow) => true,
            (Tok::Assign, Tok::Assign) => true,
            (Tok::Plus, Tok::Plus) => true,
            (Tok::Minus, Tok::Minus) => true,
            (Tok::Star, Tok::Star) => true,
            (Tok::Slash, Tok::Slash) => true,
            (Tok::Percent, Tok::Percent) => true,
            (Tok::Lt, Tok::Lt) => true,
            (Tok::Le, Tok::Le) => true,
            (Tok::Gt, Tok::Gt) => true,
            (Tok::Ge, Tok::Ge) => true,
            (Tok::EqEq, Tok::EqEq) => true,
            (Tok::Ne, Tok::Ne) => true,
            (Tok::AndAnd, Tok::AndAnd) => true,
            (Tok::OrOr, Tok::OrOr) => true,
            (Tok::Bang, Tok::Bang) => true,
            (Tok::Eof, Tok::Eof) => true,
            _ => false,
        }
    }

    /// Moves past the current token (never past `Eof`) and returns its span.
    fn bump(&mut self) -> (s: Span)
        requires
            old(self).inv(),
        ensures
            final(self).inv(),
            final(self).toks == old(self).toks,
            final(self).next_id == old(self).next_id,
            final(self).pos == bump(old(self).ts(), old(self).pos as int),
            s == old(self).ts()[old(self).pos as int].span,
    {
        let s = self.toks[self.pos].span;
        if self.pos + 1 < self.toks.len() {
            self.pos = self.pos + 1;
        }
        s
    }

    fn eat(&mut self, t: &Tok) -> (r: bool)
        requires
            old(self).inv(),
            simple_tok(t@),
        ensures
            final(self).inv(),
            final(self).toks == old(self).toks,
            final(self).next_id == old(self).next_id,
            r == (old(self).ts()[old(self).pos as int].tok == t@),
            final(self).pos == (if r { bump(old(self).ts(), old(self).pos as int) } else { old(self).pos as int }),
    {
        if self.at(t) {
            self.bump();
            true
        } else {
            false
        }
    }

    fn expect(&mut self, t: Tok, what: &str) -> (r: Result<Span, Diagnostic>)
        requires
            old(self).inv(),
            simple_tok(t@),
            t@ != TokV::Eof,
        ensures
            final(self).inv(),
            final(self).toks == old(self).toks,
            final(self).next_id == old(self).next_id,
            match r {
                Ok(sp) => p_expect(old(self).ts(), old(self).pos as int, t@, what@) == Ok::<(Span, int), DiagV>((sp, final(self).pos as int))
                    && old(self).pos < final(self).pos,
                Err(d) => p_expect(old(self).ts(), old(self).pos as int, t@, what@) == Err::<(Span, int), DiagV>(d@),
            },
    {
        if self.at(&t) {
            Ok(self.bump())
        } else {
            Err(self.expected(what))
        }
    }

    fn expected(&self, what: &str) -> (d: Diagnostic)
        requires
            self.inv(),
        ensures
            d@ == expected(self.ts(), self.pos as int, what@),
    {
        let mut m = String::from_str("expected ");
        m.append(what);
        m.append(", found ");
        let found = self.peek().describe();
        m.append(found.as_str());
        Diagnostic::new("E002", self.peek_span(), m)
    }

    fn ident(&mut self, what: &str) -> (r: Result<(String, Span), Diagnostic>)
        requires
            old(self).inv(),
        ensures
            final(self).inv(),
            final(self).toks == old(self).toks,
            final(self).next_id == old(self).next_id,
            match r {
                Ok((name, sp)) => p_ident(old(self).ts(), old(self).pos as int, what@) == Ok::<(Seq<char>, Span, int), DiagV>((name@, sp, final(self).pos as int))
                    && old(self).pos < final(self).pos,
                Err(d) => p_ident(old(self).ts(), old(self).pos as int, what@) == Err::<(Seq<char>, Span, int), DiagV>(d@),
            },
    {
        match self.peek() {
            Tok::Ident(s) => {
                let name = s.clone();
                let sp = self.bump();
                Ok((name, sp))
            },
            _ => Err(self.expected(what)),
        }
    }

    fn expr_id(&mut self) -> (id: usize)
        requires
            old(self).inv(),
            old(self).next_id < old(self).pos,
        ensures
            final(self).inv(),
            final(self).toks == old(self).toks,
            final(self).pos == old(self).pos,
            id == old(self).next_id,
            final(self).next_id == old(self).next_id + 1,
    {
        let id = self.next_id;
        self.next_id = self.next_id + 1;
        id
    }

    fn ty(&mut self) -> (r: Result<Ty, Diagnostic>)
        requires
            old(self).inv(),
        ensures
            final(self).inv(),
            final(self).toks == old(self).toks,
            final(self).next_id == old(self).next_id,
            match r {
                Ok(t) => p_ty(old(self).ts(), old(self).pos as int) == Ok::<(Ty, int), DiagV>((t, final(self).pos as int))
                    && old(self).pos < final(self).pos,
                Err(d) => p_ty(old(self).ts(), old(self).pos as int) == Err::<(Ty, int), DiagV>(d@),
            },
    {
        let (name, span) = self.ident("a type")?;
        if str_eq(name.as_str(), "i64") {
            Ok(Ty::I64)
        } else if str_eq(name.as_str(), "bool") {
            Ok(Ty::Bool)
        } else {
            let mut m = String::from_str("unknown type `");
            m.append(name.as_str());
            m.append("`");
            Err(
                Diagnostic::new("E002", span, m).note(
                    String::from_str("Ash has two value types: `i64` and `bool`"),
                ),
            )
        }
    }

    /// Whether the token after the current one is `t`.
    fn next_is(&self, t: &Tok) -> (r: bool)
        requires
            self.inv(),
            self.pos + 1 < self.toks@.len(),
            simple_tok(t@),
        ensures
            r == (self.ts()[self.pos + 1].tok == t@),
    {
        match (&self.toks[self.pos + 1].tok, t) {
            (Tok::Fn, Tok::Fn) => true,
            (Tok::Let, Tok::Let) => true,
            (Tok::Mut, Tok::Mut) => true,
            (Tok::If, Tok::If) => true,
            (Tok::Else, Tok::Else) => true,
            (Tok::While, Tok::While) => true,
            (Tok::Return, Tok::Return) => true,
            (Tok::True, Tok::True) => true,
            (Tok::False, Tok::False) => true,
            (Tok::LParen, Tok::LParen) => true,
            (Tok::RParen, Tok::RParen) => true,
            (Tok::LBrace, Tok::LBrace) => true,
            (Tok::RBrace, Tok::RBrace) => true,
            (Tok::Comma, Tok::Comma) => true,
            (Tok::Colon, Tok::Colon) => true,
            (Tok::Semi, Tok::Semi) => true,
            (Tok::Arrow, Tok::Arrow) => true,
            (Tok::Assign, Tok::Assign) => true,
            (Tok::Plus, Tok::Plus) => true,
            (Tok::Minus, Tok::Minus) => true,
            (Tok::Star, Tok::Star) => true,
            (Tok::Slash, Tok::Slash) => true,
            (Tok::Percent, Tok::Percent) => true,
            (Tok::Lt, Tok::Lt) => true,
            (Tok::Le, Tok::Le) => true,
            (Tok::Gt, Tok::Gt) => true,
            (Tok::Ge, Tok::Ge) => true,
            (Tok::EqEq, Tok::EqEq) => true,
            (Tok::Ne, Tok::Ne) => true,
            (Tok::AndAnd, Tok::AndAnd) => true,
            (Tok::OrOr, Tok::OrOr) => true,
            (Tok::Bang, Tok::Bang) => true,
            (Tok::Eof, Tok::Eof) => true,
            _ => false,
        }
    }

    fn expr(&mut self) -> (r: Result<Expr, Diagnostic>)
        requires
            old(self).inv(),
        ensures
            final(self).inv(),
            final(self).toks == old(self).toks,
            pr(r, final(self).pos, final(self).next_id) == p_expr(old(self).ts(), old(self).pos as int, old(self).next_id as int),
            r is Ok ==> final(self).advanced(old(self)),
        decreases old(self).toks@.len() - old(self).pos, 5int,
    {
        self.binary(0)
    }

    /// Precedence climbing over the binary operator table.
    fn binary(&mut self, min_prec: u8) -> (r: Result<Expr, Diagnostic>)
        requires
            old(self).inv(),
            min_prec <= 7,
        ensures
            final(self).inv(),
            final(self).toks == old(self).toks,
            pr(r, final(self).pos, final(self).next_id) == p_binary(old(self).ts(), old(self).pos as int, old(self).next_id as int, min_prec as int),
            r is Ok ==> final(self).advanced(old(self)),
        decreases old(self).toks@.len() - old(self).pos, 4int,
    {
        let ghost ts = self.ts();
        let mut lhs = self.unary()?;
        loop
            invariant
                self.inv(),
                self.toks == old(self).toks,
                ts == self.ts(),
                ts == old(self).ts(),
                min_prec <= 7,
                self.advanced(old(self)),
                p_binary(ts, old(self).pos as int, old(self).next_id as int, min_prec as int) == p_binary_rest(
                    ts,
                    self.pos as int,
                    self.next_id as int,
                    min_prec as int,
                    lhs@,
                ),
            decreases self.toks@.len() - self.pos,
        {
            let (op, prec): (BinOp, u8) = match self.peek() {
                Tok::OrOr => (BinOp::Or, 1),
                Tok::AndAnd => (BinOp::And, 2),
                Tok::EqEq => (BinOp::Eq, 3),
                Tok::Ne => (BinOp::Ne, 3),
                Tok::Lt => (BinOp::Lt, 4),
                Tok::Le => (BinOp::Le, 4),
                Tok::Gt => (BinOp::Gt, 4),
                Tok::Ge => (BinOp::Ge, 4),
                Tok::Plus => (BinOp::Add, 5),
                Tok::Minus => (BinOp::Sub, 5),
                Tok::Star => (BinOp::Mul, 6),
                Tok::Slash => (BinOp::Div, 6),
                Tok::Percent => (BinOp::Rem, 6),
                _ => {
                    return Ok(lhs);
                },
            };
            if prec < min_prec {
                return Ok(lhs);
            }
            self.bump();
            let ghost mid = *self;
            let rhs = self.binary(prec + 1)?;
            let span = lhs.span.to(rhs.span);
            let id = self.expr_id();
            lhs = Expr { id, kind: ExprKind::Binary(op, Box::new(lhs), Box::new(rhs)), span };
        }
    }

    fn unary(&mut self) -> (r: Result<Expr, Diagnostic>)
        requires
            old(self).inv(),
        ensures
            final(self).inv(),
            final(self).toks == old(self).toks,
            pr(r, final(self).pos, final(self).next_id) == p_unary(old(self).ts(), old(self).pos as int, old(self).next_id as int),
            r is Ok ==> final(self).advanced(old(self)),
        decreases old(self).toks@.len() - old(self).pos, 2int,
    {
        let start = self.peek_span();
        let op = match self.peek() {
            Tok::Minus => Some(UnOp::Neg),
            Tok::Bang => Some(UnOp::Not),
            _ => None,
        };
        if let Some(op) = op {
            self.bump();
            let inner = self.unary()?;
            let span = start.to(inner.span);
            let id = self.expr_id();
            return Ok(Expr { id, kind: ExprKind::Unary(op, Box::new(inner)), span });
        }
        self.primary()
    }

    fn primary(&mut self) -> (r: Result<Expr, Diagnostic>)
        requires
            old(self).inv(),
        ensures
            final(self).inv(),
            final(self).toks == old(self).toks,
            pr(r, final(self).pos, final(self).next_id) == p_primary(old(self).ts(), old(self).pos as int, old(self).next_id as int),
            r is Ok ==> final(self).advanced(old(self)),
        decreases old(self).toks@.len() - old(self).pos, 1int,
    {
        let ghost ts = self.ts();
        let kind = match self.peek() {
            Tok::Int(n) => ExprKind::Int(*n),
            Tok::True => ExprKind::Bool(true),
            Tok::False => ExprKind::Bool(false),
            Tok::Str(s) => ExprKind::Str(s.clone()),
            Tok::LParen => {
                self.bump();
                let e = self.expr()?;
                self.expect(Tok::RParen, "`)`")?;
                return Ok(e);
            },
            Tok::Ident(name) => {
                let name = name.clone();
                let tspan = self.bump();
                if self.eat(&Tok::LParen) {
                    let args = self.args()?;
                    let end = self.expect(Tok::RParen, "`)` after arguments")?;
                    let id = self.expr_id();
                    return Ok(Expr { id, kind: ExprKind::Call(name, args), span: tspan.to(end) });
                }
                let id = self.expr_id();
                return Ok(Expr { id, kind: ExprKind::Var(name), span: tspan });
            },
            _ => {
                let mut m = String::from_str("expected an expression, found ");
                let found = self.peek().describe();
                m.append(found.as_str());
                return Err(Diagnostic::new("E002", self.peek_span(), m));
            },
        };
        let span = self.bump();
        let id = self.expr_id();
        Ok(Expr { id, kind, span })
    }

    /// Call arguments, up to the closing parenthesis.
    fn args(&mut self) -> (r: Result<Vec<Expr>, Diagnostic>)
        requires
            old(self).inv(),
        ensures
            final(self).inv(),
            final(self).toks == old(self).toks,
            pr_args(r, final(self).pos, final(self).next_id) == p_args(old(self).ts(), old(self).pos as int, old(self).next_id as int),
            r is Ok ==> final(self).pos >= old(self).pos && final(self).next_id - old(self).next_id <= final(self).pos - old(self).pos
                && old(self).next_id <= final(self).next_id,
        decreases old(self).toks@.len() - old(self).pos, 7int,
    {
        let ghost ts = self.ts();
        let mut args: Vec<Expr> = Vec::new();
        if self.at(&Tok::RParen) {
            return Ok(args);
        }
        assert(p_args(ts, old(self).pos as int, old(self).next_id as int) == p_arg_list(ts, old(self).pos as int, old(self).next_id as int));
        assert(exprs_v(args@) =~= Seq::<ExprV>::empty());
        loop
            invariant
                self.inv(),
                self.toks == old(self).toks,
                ts == self.ts(),
                ts == old(self).ts(),
                self.pos >= old(self).pos,
                self.next_id - old(self).next_id <= self.pos - old(self).pos,
                old(self).next_id <= self.next_id,
                p_args(ts, old(self).pos as int, old(self).next_id as int) == (match p_arg_list(ts, self.pos as int, self.next_id as int) {
                    Ok((rest, p, i)) => Ok::<(Seq<ExprV>, int, int), DiagV>((exprs_v(args@) + rest, p, i)),
                    Err(d) => Err(d),
                }),
            decreases self.toks@.len() - self.pos,
        {
            let ghost before = *self;
            let ghost prev_args = args@;
            let e = self.expr()?;
            let ghost eg = e;
            args.push(e);
            proof {
                lemma_exprs_v_push(prev_args, eg);
                assert(args@ == prev_args.push(eg));
                assert(exprs_v(args@) == exprs_v(prev_args) + seq![expr_v(eg)]);
            }
            let ghost mid = *self;
            let comma = self.eat(&Tok::Comma);
            if !comma {
                assert(exprs_v(prev_args) + seq![expr_v(eg)] == exprs_v(prev_args) + seq![expr_v(eg)]);
                return Ok(args);
            }
            proof {
                match p_arg_list(ts, self.pos as int, self.next_id as int) {
                    Ok((rest, p, i)) => {
                        assert(exprs_v(prev_args) + (seq![expr_v(eg)] + rest) =~= exprs_v(args@) + rest);
                    },
                    Err(_) => {},
                }
            }
        }
    }

    fn stmt_let(&mut self) -> (r: Result<Stmt, Diagnostic>)
        requires
            old(self).inv(),
            old(self).ts()[old(self).pos as int].tok == TokV::Let,
        ensures
            final(self).inv(),
            final(self).toks == old(self).toks,
            pr(r, final(self).pos, final(self).next_id) == p_let(old(self).ts(), old(self).pos as int, old(self).next_id as int),
            r is Ok ==> final(self).advanced(old(self)),
    {
        let ghost ts = self.ts();
        let start = self.peek_span();
        self.bump();
        let mutable = self.eat(&Tok::Mut);
        let (name, name_span) = self.ident("a variable name")?;
        let ty = if self.eat(&Tok::Colon) {
            Some(self.ty()?)
        } else {
            None
        };
        self.expect(Tok::Assign, "`=` (Ash variables must be initialised)")?;
        let init = self.expr()?;
        let end = self.expect(Tok::Semi, "`;` after the initialiser")?;
        Ok(Stmt { kind: StmtKind::Let { name, name_span, mutable, ty, init }, span: start.to(end) })
    }

    fn stmt_return(&mut self) -> (r: Result<Stmt, Diagnostic>)
        requires
            old(self).inv(),
            old(self).ts()[old(self).pos as int].tok == TokV::Return,
        ensures
            final(self).inv(),
            final(self).toks == old(self).toks,
            pr(r, final(self).pos, final(self).next_id) == p_return(old(self).ts(), old(self).pos as int, old(self).next_id as int),
            r is Ok ==> final(self).advanced(old(self)),
    {
        let ghost ts = self.ts();
        let start = self.peek_span();
        self.bump();
        let value = if self.at(&Tok::Semi) {
            None
        } else {
            Some(self.expr()?)
        };
        let end = self.expect(Tok::Semi, "`;` after `return`")?;
        Ok(Stmt { kind: StmtKind::Return(value), span: start.to(end) })
    }

    #[verifier::rlimit(40)]
    fn stmt_if(&mut self) -> (r: Result<Stmt, Diagnostic>)
        requires
            old(self).inv(),
            old(self).ts()[old(self).pos as int].tok == TokV::If,
        ensures
            final(self).inv(),
            final(self).toks == old(self).toks,
            pr(r, final(self).pos, final(self).next_id) == p_if(old(self).ts(), old(self).pos as int, old(self).next_id as int),
            r is Ok ==> final(self).advanced(old(self)),
        decreases old(self).toks@.len() - old(self).pos, 8int,
    {
        let ghost ts = self.ts();
        let start = self.peek_span();
        self.bump();
        let cond = self.expr()?;
        let then = self.block()?;
        let els = if self.eat(&Tok::Else) {
            if self.at(&Tok::If) {
                let s = self.stmt()?;
                let sp = s.span;
                let mut stmts: Vec<Stmt> = Vec::new();
                stmts.push(s);
                proof {
                    lemma_stmts_v_single(stmts@);
                }
                Some(Block { span: sp, stmts })
            } else {
                Some(self.block()?)
            }
        } else {
            None
        };
        let end = match &els {
            Some(b) => b.span,
            None => then.span,
        };
        Ok(Stmt { kind: StmtKind::If { cond, then, els }, span: start.to(end) })
    }

    fn stmt_while(&mut self) -> (r: Result<Stmt, Diagnostic>)
        requires
            old(self).inv(),
            old(self).ts()[old(self).pos as int].tok == TokV::While,
        ensures
            final(self).inv(),
            final(self).toks == old(self).toks,
            pr(r, final(self).pos, final(self).next_id) == p_while(old(self).ts(), old(self).pos as int, old(self).next_id as int),
            r is Ok ==> final(self).advanced(old(self)),
        decreases old(self).toks@.len() - old(self).pos, 8int,
    {
        let ghost ts = self.ts();
        let start = self.peek_span();
        self.bump();
        let cond = self.expr()?;
        let body = self.block()?;
        let end = body.span;
        Ok(Stmt { kind: StmtKind::While { cond, body }, span: start.to(end) })
    }

    fn stmt_print(&mut self) -> (r: Result<Stmt, Diagnostic>)
        requires
            old(self).inv(),
            old(self).pos + 1 < old(self).toks@.len(),
            is_print(old(self).ts(), old(self).pos as int),
        ensures
            final(self).inv(),
            final(self).toks == old(self).toks,
            pr(r, final(self).pos, final(self).next_id) == p_print(old(self).ts(), old(self).pos as int, old(self).next_id as int),
            r is Ok ==> final(self).advanced(old(self)),
    {
        let ghost ts = self.ts();
        let start = self.peek_span();
        self.bump();
        self.bump();
        let e = self.expr()?;
        self.expect(Tok::RParen, "`)` after the print argument")?;
        let end = self.expect(Tok::Semi, "`;` after `print(...)`")?;
        Ok(Stmt { kind: StmtKind::Print(e), span: start.to(end) })
    }

    fn stmt_assign(&mut self) -> (r: Result<Stmt, Diagnostic>)
        requires
            old(self).inv(),
            old(self).pos + 1 < old(self).toks@.len(),
            is_assign(old(self).ts(), old(self).pos as int),
        ensures
            final(self).inv(),
            final(self).toks == old(self).toks,
            pr(r, final(self).pos, final(self).next_id) == p_assign(old(self).ts(), old(self).pos as int, old(self).next_id as int),
            r is Ok ==> final(self).advanced(old(self)),
    {
        let ghost ts = self.ts();
        let start = self.peek_span();
        let name = match self.peek() {
            Tok::Ident(name) => name.clone(),
            _ => String::new(),
        };
        let name_span = self.bump();
        self.bump();
        let value = self.expr()?;
        let end = self.expect(Tok::Semi, "`;` after the assignment")?;
        Ok(Stmt { kind: StmtKind::Assign { name, name_span, value }, span: start.to(end) })
    }

    fn stmt_expr(&mut self) -> (r: Result<Stmt, Diagnostic>)
        requires
            old(self).inv(),
        ensures
            final(self).inv(),
            final(self).toks == old(self).toks,
            pr(r, final(self).pos, final(self).next_id) == p_expr_stmt(old(self).ts(), old(self).pos as int, old(self).next_id as int),
            r is Ok ==> final(self).advanced(old(self)),
    {
        let ghost ts = self.ts();
        let start = self.peek_span();
        let e = self.expr()?;
        let end = match self.expect(Tok::Semi, "`;` after the expression") {
            Ok(end) => end,
            Err(d) => {
                return Err(d.note(String::from_str("only function calls are useful as statements")));
            },
        };
        Ok(Stmt { kind: StmtKind::Expr(e), span: start.to(end) })
    }

    fn stmt(&mut self) -> (r: Result<Stmt, Diagnostic>)
        requires
            old(self).inv(),
        ensures
            final(self).inv(),
            final(self).toks == old(self).toks,
            pr(r, final(self).pos, final(self).next_id) == p_stmt(old(self).ts(), old(self).pos as int, old(self).next_id as int),
            r is Ok ==> final(self).advanced(old(self)),
        decreases old(self).toks@.len() - old(self).pos, 9int,
    {
        if self.at(&Tok::Let) {
            return self.stmt_let();
        }
        if self.at(&Tok::Return) {
            return self.stmt_return();
        }
        if self.at(&Tok::If) {
            return self.stmt_if();
        }
        if self.at(&Tok::While) {
            return self.stmt_while();
        }
        let (is_print, is_assign) = match self.peek() {
            Tok::Ident(name) => {
                let p = str_eq(name.as_str(), "print") && self.next_is(&Tok::LParen);
                let a = self.next_is(&Tok::Assign);
                (p, a)
            },
            _ => (false, false),
        };
        if is_print {
            return self.stmt_print();
        }
        if is_assign {
            return self.stmt_assign();
        }
        self.stmt_expr()
    }

    fn block(&mut self) -> (r: Result<Block, Diagnostic>)
        requires
            old(self).inv(),
        ensures
            final(self).inv(),
            final(self).toks == old(self).toks,
            pr(r, final(self).pos, final(self).next_id) == p_block(old(self).ts(), old(self).pos as int, old(self).next_id as int),
            r is Ok ==> final(self).advanced(old(self)),
        decreases old(self).toks@.len() - old(self).pos, 11int,
    {
        let ghost ts = self.ts();
        let start = self.expect(Tok::LBrace, "`{`")?;
        let mut stmts: Vec<Stmt> = Vec::new();
        assert(stmts_v(stmts@) =~= Seq::<StmtV>::empty());
        loop
            invariant
                self.inv(),
                self.toks == old(self).toks,
                ts == self.ts(),
                ts == old(self).ts(),
                self.advanced(old(self)),
                p_block(ts, old(self).pos as int, old(self).next_id as int) == p_block_rest(
                    ts,
                    self.pos as int,
                    self.next_id as int,
                    start,
                    stmts_v(stmts@),
                ),
            decreases self.toks@.len() - self.pos,
        {
            if self.at(&Tok::RBrace) {
                let end = self.bump();
                return Ok(Block { stmts, span: start.to(end) });
            }
            if self.at(&Tok::Eof) {
                return Err(
                    Diagnostic::new("E002", self.peek_span(), String::from_str("unexpected end of file, expected `}`")).label(
                        String::from_str("this block was never closed"),
                    ),
                );
            }
            let ghost prev = stmts@;
            let s = self.stmt()?;
            let ghost sg = s;
            stmts.push(s);
            proof {
                lemma_stmts_v_push(prev, sg);
                assert(stmts@ == prev.push(sg));
            }
        }
    }


    fn params(&mut self) -> (r: Result<Vec<Param>, Diagnostic>)
        requires
            old(self).inv(),
        ensures
            final(self).inv(),
            final(self).toks == old(self).toks,
            final(self).next_id == old(self).next_id,
            match r {
                Ok(ps) => p_param_list(old(self).ts(), old(self).pos as int) == Ok::<(Seq<ParamV>, int), DiagV>((ps@.map_values(|q: Param| q@), final(self).pos as int))
                    && old(self).pos <= final(self).pos,
                Err(d) => p_param_list(old(self).ts(), old(self).pos as int) == Err::<(Seq<ParamV>, int), DiagV>(d@),
            },
    {
        let ghost ts = self.ts();
        let mut params: Vec<Param> = Vec::new();
        if self.at(&Tok::RParen) {
            assert(params@.map_values(|q: Param| q@) =~= Seq::<ParamV>::empty());
            return Ok(params);
        }
        assert(params@.map_values(|q: Param| q@) =~= Seq::<ParamV>::empty());
        loop
            invariant
                self.inv(),
                self.toks == old(self).toks,
                self.next_id == old(self).next_id,
                ts == self.ts(),
                ts == old(self).ts(),
                self.pos >= old(self).pos,
                ts[old(self).pos as int].tok != TokV::RParen,
                p_param_list(ts, old(self).pos as int) == (match p_params(ts, self.pos as int) {
                    Ok((rest, p)) => Ok::<(Seq<ParamV>, int), DiagV>((params@.map_values(|q: Param| q@) + rest, p)),
                    Err(d) => Err(d),
                }),
            decreases self.toks@.len() - self.pos,
        {
            let ghost prev = params@;
            let (pname, pspan) = self.ident("a parameter name")?;
            self.expect(Tok::Colon, "`:` followed by the parameter type")?;
            let ty = self.ty()?;
            let param = Param { name: pname, ty, span: pspan };
            let ghost pv = param@;
            params.push(param);
            assert(params@.map_values(|q: Param| q@) =~= prev.map_values(|q: Param| q@).push(pv));
            if !self.eat(&Tok::Comma) {
                assert(prev.map_values(|q: Param| q@) + seq![pv] =~= params@.map_values(|q: Param| q@));
                return Ok(params);
            }
            proof {
                match p_params(ts, self.pos as int) {
                    Ok((rest, p)) => {
                        assert(prev.map_values(|q: Param| q@) + (seq![pv] + rest) =~= params@.map_values(|q: Param| q@) + rest);
                    },
                    Err(_) => {},
                }
            }
        }
    }

    fn func(&mut self) -> (r: Result<FnDecl, Diagnostic>)
        requires
            old(self).inv(),
        ensures
            final(self).inv(),
            final(self).toks == old(self).toks,
            pr(r, final(self).pos, final(self).next_id) == p_func(old(self).ts(), old(self).pos as int, old(self).next_id as int),
            r is Ok ==> final(self).advanced(old(self)),
    {
        let start = self.expect(Tok::Fn, "`fn`")?;
        let (name, name_span) = self.ident("a function name")?;
        self.expect(Tok::LParen, "`(` after the function name")?;
        let params = self.params()?;
        self.expect(Tok::RParen, "`)` after parameters")?;
        let ret = if self.eat(&Tok::Arrow) {
            self.ty()?
        } else {
            Ty::Unit
        };
        let body = self.block()?;
        let span = start.to(body.span);
        Ok(FnDecl { name, name_span, params, ret, span, body })
    }

    fn program(&mut self) -> (r: Result<Program, Diagnostic>)
        requires
            old(self).inv(),
        ensures
            match r {
                Ok(p) => p_program(old(self).ts(), old(self).pos as int, old(self).next_id as int, Seq::empty()) == Ok::<ProgramV, DiagV>(p@),
                Err(d) => p_program(old(self).ts(), old(self).pos as int, old(self).next_id as int, Seq::empty()) == Err::<ProgramV, DiagV>(d@),
            },
    {
        let ghost ts = self.ts();
        let mut funcs: Vec<FnDecl> = Vec::new();
        assert(funcs@.map_values(|f: FnDecl| f@) =~= Seq::<FnDeclV>::empty());
        loop
            invariant
                self.inv(),
                self.toks == old(self).toks,
                ts == self.ts(),
                ts == old(self).ts(),
                p_program(ts, old(self).pos as int, old(self).next_id as int, Seq::empty()) == p_program(
                    ts,
                    self.pos as int,
                    self.next_id as int,
                    funcs@.map_values(|f: FnDecl| f@),
                ),
            decreases self.toks@.len() - self.pos,
        {
            if self.at(&Tok::Eof) {
                return Ok(Program { funcs, expr_count: self.next_id });
            }
            if !self.at(&Tok::Fn) {
                let mut m = String::from_str("expected `fn` at top level, found ");
                let found = self.peek().describe();
                m.append(found.as_str());
                return Err(
                    Diagnostic::new("E002", self.peek_span(), m).note(
                        String::from_str("Ash programs are a sequence of function declarations"),
                    ),
                );
            }
            let ghost prev = funcs@;
            let f = self.func()?;
            let ghost fv = f@;
            funcs.push(f);
            assert(funcs@.map_values(|f: FnDecl| f@) =~= prev.map_values(|f: FnDecl| f@).push(fv));
        }
    }
}

/// Parses a token list (as produced by the lexer, ending in `Eof`).
pub fn parse(toks: &[Token]) -> (r: Result<Program, Diagnostic>)
    requires
        tokens_wf(tokens_view(toks@)),
    ensures
        match r {
            Ok(p) => spec_parse(tokens_view(toks@)) == Ok::<ProgramV, DiagV>(p@) && program_ids_ok(p@),
            Err(d) => spec_parse(tokens_view(toks@)) == Err::<ProgramV, DiagV>(d@),
        },
{
    let _n = toks.len();
    let mut p = Parser { toks, pos: 0, next_id: 0 };
    let r = p.program();
    proof {
        let ts = tokens_view(toks@);
        if spec_parse(ts) is Ok {
            lemma_parse_ids(ts);
        }
    }
    r
}

proof fn lemma_stmts_v_push(s: Seq<Stmt>, e: Stmt)
    ensures
        stmts_v(s.push(e)) == stmts_v(s).push(stmt_v(e)),
    decreases s.len(),
{
    if s.len() == 0 {
        assert(s.push(e).drop_first() =~= Seq::<Stmt>::empty());
        assert(stmts_v(Seq::<Stmt>::empty()) == Seq::<StmtV>::empty());
        assert(stmts_v(s.push(e)) =~= seq![stmt_v(e)]);
        assert(stmts_v(s).push(stmt_v(e)) =~= seq![stmt_v(e)]);
    } else {
        lemma_stmts_v_push(s.drop_first(), e);
        assert(s.push(e).drop_first() =~= s.drop_first().push(e));
        assert(stmts_v(s.push(e)) =~= seq![stmt_v(s[0])] + stmts_v(s.drop_first().push(e)));
        assert(stmts_v(s) =~= seq![stmt_v(s[0])] + stmts_v(s.drop_first()));
    }
}

proof fn lemma_stmts_v_single(s: Seq<Stmt>)
    requires
        s.len() == 1,
    ensures
        stmts_v(s) == seq![stmt_v(s[0])],
{
    assert(s.drop_first() =~= Seq::<Stmt>::empty());
    assert(stmts_v(Seq::<Stmt>::empty()) == Seq::<StmtV>::empty());
    assert(stmts_v(s) =~= seq![stmt_v(s[0])]);
}

proof fn lemma_exprs_v_push(s: Seq<Expr>, e: Expr)
    ensures
        exprs_v(s.push(e)) == exprs_v(s) + seq![expr_v(e)],
    decreases s.len(),
{
    if s.len() == 0 {
        assert(s.push(e).drop_first() =~= Seq::<Expr>::empty());
        assert(exprs_v(Seq::<Expr>::empty()) == Seq::<ExprV>::empty());
        assert(exprs_v(s.push(e)) =~= seq![expr_v(e)]);
    } else {
        lemma_exprs_v_push(s.drop_first(), e);
        assert(s.push(e).drop_first() =~= s.drop_first().push(e));
        assert(exprs_v(s.push(e)) =~= seq![expr_v(s[0])] + exprs_v(s.drop_first().push(e)));
        assert(exprs_v(s) =~= seq![expr_v(s[0])] + exprs_v(s.drop_first()));
    }
}

/// The view of a sequence of expressions views each element.
pub proof fn lemma_exprs_v(s: Seq<Expr>)
    ensures
        exprs_v(s).len() == s.len(),
        forall|k: int| 0 <= k < s.len() ==> #[trigger] exprs_v(s)[k] == expr_v(s[k]),
    decreases s.len(),
{
    if s.len() > 0 {
        lemma_exprs_v(s.drop_first());
        assert forall|k: int| 0 <= k < s.len() implies #[trigger] exprs_v(s)[k] == expr_v(s[k]) by {
            if k > 0 {
                assert(exprs_v(s)[k] == exprs_v(s.drop_first())[k - 1]);
            }
        }
    }
}

/// The view of a sequence of statements views each element.
pub proof fn lemma_stmts_v(s: Seq<Stmt>)
    ensures
        stmts_v(s).len() == s.len(),
        forall|k: int| 0 <= k < s.len() ==> #[trigger] stmts_v(s)[k] == stmt_v(s[k]),
    decreases s.len(),
{
    if s.len() > 0 {
        lemma_stmts_v(s.drop_first());
        assert forall|k: int| 0 <= k < s.len() implies #[trigger] stmts_v(s)[k] == stmt_v(s[k]) by {
            if k > 0 {
                assert(stmts_v(s)[k] == stmts_v(s.drop_first())[k - 1]);
            }
        }
    }
}

} // verus!
