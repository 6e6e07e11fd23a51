//! Tokenizer for Ash: a byte-oriented scanner producing tokens with byte
//! spans; every malformed input is a spanned `E001` diagnostic.

use vstd::prelude::*;
use vstd::string::*;
use vstd::utf8::*;

use crate::diag::{Diagnostic, DiagV, Span, diag_v};
use crate::text::{
    str_slice, str_len, string_from_utf8, push_char, push_int, int_text, lemma_ascii_is_boundary,
    lemma_boundary_after_ascii,
};

verus! {

#[derive(Debug, Clone, PartialEq, Eq)]
pub enum Tok {
    Ident(String),
    Int(i64),
    Str(String),
    // keywords
    Fn,
    Let,
    Mut,
    If,
    Else,
    While,
    Return,
    True,
    False,
    // punctuation / operators
    LParen,
    RParen,
    LBrace,
    RBrace,
    Comma,
    Colon,
    Semi,
    Arrow,
    Assign,
    Plus,
    Minus,
    Star,
    Slash,
    Percent,
    Lt,
    Le,
    Gt,
    Ge,
    EqEq,
    Ne,
    AndAnd,
    OrOr,
    Bang,
    Eof,
}

/// A token as a value: names and string contents as character sequences.
pub enum TokV {
    Ident(Seq<char>),
    Int(i64),
    Str(Seq<char>),
    Fn,
    Let,
    Mut,
    If,
    Else,
    While,
    Return,
    True,
    False,
    LParen,
    RParen,
    LBrace,
    RBrace,
    Comma,
    Colon,
    Semi,
    Arrow,
    Assign,
    Plus,
    Minus,
    Star,
    Slash,
    Percent,
    Lt,
    Le,
    Gt,
    Ge,
    EqEq,
    Ne,
    AndAnd,
    OrOr,
    Bang,
    Eof,
}

impl View for Tok {
    type V = TokV;

    open spec fn view(&self) -> TokV {
        match self {
            Tok::Ident(s) => TokV::Ident(s@),
            Tok::Int(n) => TokV::Int(*n),
            Tok::Str(s) => TokV::Str(s@),
            Tok::Fn => TokV::Fn,
            Tok::Let => TokV::Let,
            Tok::Mut => TokV::Mut,
            Tok::If => TokV::If,
            Tok::Else => TokV::Else,
            Tok::While => TokV::While,
            Tok::Return => TokV::Return,
            Tok::True => TokV::True,
            Tok::False => TokV::False,
            Tok::LParen => TokV::LParen,
            Tok::RParen => TokV::RParen,
            Tok::LBrace => TokV::LBrace,
            Tok::RBrace => TokV::RBrace,
            Tok::Comma => TokV::Comma,
            Tok::Colon => TokV::Colon,
            Tok::Semi => TokV::Semi,
            Tok::Arrow => TokV::Arrow,
            Tok::Assign => TokV::Assign,
            Tok::Plus => TokV::Plus,
            Tok::Minus => TokV::Minus,
            Tok::Star => TokV::Star,
            Tok::Slash => TokV::Slash,
            Tok::Percent => TokV::Percent,
            Tok::Lt => TokV::Lt,
            Tok::Le => TokV::Le,
            Tok::Gt => TokV::Gt,
            Tok::Ge => TokV::Ge,
            Tok::EqEq => TokV::EqEq,
            Tok::Ne => TokV::Ne,
            Tok::AndAnd => TokV::AndAnd,
            Tok::OrOr => TokV::OrOr,
            Tok::Bang => TokV::Bang,
            Tok::Eof => TokV::Eof,
        }
    }
}

/// The spelling of a keyword or punctuation token (empty for the others).
pub open spec fn tok_text(t: TokV) -> Seq<char> {
    match t {
        TokV::Fn => "fn"@,
        TokV::Let => "let"@,
        TokV::Mut => "mut"@,
        TokV::If => "if"@,
        TokV::Else => "else"@,
        TokV::While => "while"@,
        TokV::Return => "return"@,
        TokV::True => "true"@,
        TokV::False => "false"@,
        TokV::LParen => "("@,
        TokV::RParen => ")"@,
        TokV::LBrace => "{"@,
        TokV::RBrace => "}"@,
        TokV::Comma => ","@,
        TokV::Colon => ":"@,
        TokV::Semi => ";"@,
        TokV::Arrow => "->"@,
        TokV::Assign => "="@,
        TokV::Plus => "+"@,
        TokV::Minus => "-"@,
        TokV::Star => "*"@,
        TokV::Slash => "/"@,
        TokV::Percent => "%"@,
        TokV::Lt => "<"@,
        TokV::Le => "<="@,
        TokV::Gt => ">"@,
        TokV::Ge => ">="@,
        TokV::EqEq => "=="@,
        TokV::Ne => "!="@,
        TokV::AndAnd => "&&"@,
        TokV::OrOr => "||"@,
        TokV::Bang => "!"@,
        _ => ""@,
    }
}

/// How a token is named in "expected ..., found ..." messages.
pub open spec fn tok_describe(t: TokV) -> Seq<char> {
    match t {
        TokV::Ident(s) => "identifier `"@ + s + "`"@,
        TokV::Int(n) => "integer `"@ + int_text(n as int) + "`"@,
        TokV::Str(_) => "string literal"@,
        TokV::Eof => "end of file"@,
        _ => "`"@ + tok_text(t) + "`"@,
    }
}

impl Tok {
    pub fn describe(&self) -> (s: String)
        ensures
            s@ == tok_describe(self@),
    {
        match self {
            Tok::Ident(s) => {
                let mut r = String::from_str("identifier `");
                r.append(s.as_str());
                r.append("`");
                r
            },
            Tok::Int(n) => {
                let mut r = String::from_str("integer `");
                push_int(&mut r, *n);
                r.append("`");
                r
            },
            Tok::Str(_) => String::from_str("string literal"),
            Tok::Eof => String::from_str("end of file"),
            _ => {
                let mut r = String::from_str("`");
                r.append(self.text());
                r.append("`");
                r
            },
        }
    }

    pub fn text(&self) -> (s: &'static str)
        ensures
            s@ == tok_text(self@),
    {
        match self {
            Tok::Fn => "fn",
            Tok::Let => "let",
            Tok::Mut => "mut",
            Tok::If => "if",
            Tok::Else => "else",
            Tok::While => "while",
            Tok::Return => "return",
            Tok::True => "true",
            Tok::False => "false",
            Tok::LParen => "(",
            Tok::RParen => ")",
            Tok::LBrace => "{",
            Tok::RBrace => "}",
            Tok::Comma => ",",
            Tok::Colon => ":",
            Tok::Semi => ";",
            Tok::Arrow => "->",
            Tok::Assign => "=",
            Tok::Plus => "+",
            Tok::Minus => "-",
            Tok::Star => "*",
            Tok::Slash => "/",
            Tok::Percent => "%",
            Tok::Lt => "<",
            Tok::Le => "<=",
            Tok::Gt => ">",
            Tok::Ge => ">=",
            Tok::EqEq => "==",
            Tok::Ne => "!=",
            Tok::AndAnd => "&&",
            Tok::OrOr => "||",
            Tok::Bang => "!",
            _ => "",
        }
    }
}

#[derive(Debug, Clone, PartialEq, Eq)]
pub struct Token {
    pub tok: Tok,
    pub span: Span,
}

pub struct TokenV {
    pub tok: TokV,
    pub span: Span,
}

impl View for Token {
    type V = TokenV;

    open spec fn view(&self) -> TokenV {
        TokenV { tok: self.tok@, span: self.span }
    }
}

// ------------------------------------------------------------ the spec --

pub open spec fn is_ws(c: u8) -> bool {
    c == 32 || c == 9 || c == 10 || c == 12 || c == 13
}

pub open spec fn is_alpha(c: u8) -> bool {
    (65 <= c <= 90) || (97 <= c <= 122)
}

pub open spec fn is_digit(c: u8) -> bool {
    48 <= c <= 57
}

pub open spec fn is_word_byte(c: u8) -> bool {
    is_alpha(c) || is_digit(c) || c == 95
}

pub open spec fn sp(start: int, end: int) -> Span {
    Span { start: start as usize, end: end as usize }
}

pub open spec fn e001(span: Span, message: Seq<char>) -> DiagV {
    diag_v("E001"@, span, message)
}

/// End of a line comment starting at `i`: the next newline, or the end.
pub open spec fn line_comment_end(b: Seq<u8>, i: int) -> int
    decreases b.len() - i,
{
    if i >= b.len() || b[i] == 10 {
        i
    } else {
        line_comment_end(b, i + 1)
    }
}

/// End of a (nested) block comment whose body starts at `i` with `depth`
/// comments open, or `None` when the text ends first.
pub open spec fn block_comment_end(b: Seq<u8>, i: int, depth: nat) -> Option<int>
    decreases b.len() - i,
{
    if depth == 0 {
        Some(i)
    } else if i >= b.len() {
        None
    } else if b[i] == 47 && i + 1 < b.len() && b[i + 1] == 42 {
        block_comment_end(b, i + 2, depth + 1)
    } else if b[i] == 42 && i + 1 < b.len() && b[i + 1] == 47 {
        block_comment_end(b, i + 2, (depth - 1) as nat)
    } else {
        block_comment_end(b, i + 1, depth)
    }
}

/// End of a run of identifier bytes starting at `i`.
pub open spec fn word_end(b: Seq<u8>, i: int) -> int
    decreases b.len() - i,
{
    if i < b.len() && is_word_byte(b[i]) {
        word_end(b, i + 1)
    } else {
        i
    }
}

/// End of a run of digits and `_` starting at `i`.
pub open spec fn number_end(b: Seq<u8>, i: int) -> int
    decreases b.len() - i,
{
    if i < b.len() && (is_digit(b[i]) || b[i] == 95) {
        number_end(b, i + 1)
    } else {
        i
    }
}

/// End of the UTF-8 character starting at `i`.
pub open spec fn char_end(b: Seq<u8>, i: int) -> int
    decreases b.len() - i,
{
    if i + 1 < b.len() && is_continuation_byte(b[i + 1]) {
        char_end(b, i + 1)
    } else {
        i + 1
    }
}

/// Value of the decimal digits in `d`, ignoring `_` separators.
pub open spec fn digits_value(d: Seq<u8>) -> int
    decreases d.len(),
{
    if d.len() == 0 {
        0
    } else if d.last() == 95 {
        digits_value(d.drop_last())
    } else {
        digits_value(d.drop_last()) * 10 + (d.last() - 48)
    }
}


/// The token of a word: a keyword, or an identifier.
pub open spec fn word_tok(w: Seq<u8>) -> TokV {
    if w == seq![102u8, 110u8] {
        TokV::Fn
    } else if w == seq![108u8, 101u8, 116u8] {
        TokV::Let
    } else if w == seq![109u8, 117u8, 116u8] {
        TokV::Mut
    } else if w == seq![105u8, 102u8] {
        TokV::If
    } else if w == seq![101u8, 108u8, 115u8, 101u8] {
        TokV::Else
    } else if w == seq![119u8, 104u8, 105u8, 108u8, 101u8] {
        TokV::While
    } else if w == seq![114u8, 101u8, 116u8, 117u8, 114u8, 110u8] {
        TokV::Return
    } else if w == seq![116u8, 114u8, 117u8, 101u8] {
        TokV::True
    } else if w == seq![102u8, 97u8, 108u8, 115u8, 101u8] {
        TokV::False
    } else {
        TokV::Ident(decode_utf8(w))
    }
}

/// Two-character operators.
pub open spec fn two_char_tok(c: u8, d: u8) -> Option<TokV> {
    if c == 45 && d == 62 {
        Some(TokV::Arrow)
    } else if c == 60 && d == 61 {
        Some(TokV::Le)
    } else if c == 62 && d == 61 {
        Some(TokV::Ge)
    } else if c == 61 && d == 61 {
        Some(TokV::EqEq)
    } else if c == 33 && d == 61 {
        Some(TokV::Ne)
    } else if c == 38 && d == 38 {
        Some(TokV::AndAnd)
    } else if c == 124 && d == 124 {
        Some(TokV::OrOr)
    } else {
        None
    }
}

/// One-character punctuation and operators.
pub open spec fn one_char_tok(c: u8) -> Option<TokV> {
    if c == 40 {
        Some(TokV::LParen)
    } else if c == 41 {
        Some(TokV::RParen)
    } else if c == 123 {
        Some(TokV::LBrace)
    } else if c == 125 {
        Some(TokV::RBrace)
    } else if c == 44 {
        Some(TokV::Comma)
    } else if c == 58 {
        Some(TokV::Colon)
    } else if c == 59 {
        Some(TokV::Semi)
    } else if c == 61 {
        Some(TokV::Assign)
    } else if c == 43 {
        Some(TokV::Plus)
    } else if c == 45 {
        Some(TokV::Minus)
    } else if c == 42 {
        Some(TokV::Star)
    } else if c == 47 {
        Some(TokV::Slash)
    } else if c == 37 {
        Some(TokV::Percent)
    } else if c == 60 {
        Some(TokV::Lt)
    } else if c == 62 {
        Some(TokV::Gt)
    } else if c == 33 {
        Some(TokV::Bang)
    } else {
        None
    }
}

/// The byte an escape sequence `\e` stands for.
pub open spec fn escape_byte(e: u8) -> Option<u8> {
    if e == 110 {
        Some(10u8)
    } else if e == 116 {
        Some(9u8)
    } else if e == 92 {
        Some(92u8)
    } else if e == 34 {
        Some(34u8)
    } else {
        None
    }
}

/// Scans the body of a string literal that opened at `start`, from `i`,
/// with the contents `acc` so far: the contents (as UTF-8 bytes) and the
/// offset after the closing quote, or the diagnostic.
pub open spec fn string_body(b: Seq<u8>, start: int, i: int, acc: Seq<u8>) -> Result<(Seq<u8>, int), DiagV>
    decreases b.len() - i,
{
    if i >= b.len() || b[i] == 10 {
        Err(e001(sp(start, i), "unterminated string literal"@))
    } else if b[i] == 34 {
        Ok((acc, i + 1))
    } else if b[i] == 92 {
        match (if i + 1 < b.len() { escape_byte(b[i + 1]) } else { None }) {
            Some(e) => string_body(b, start, i + 2, acc.push(e)),
            None => Err(e001(sp(i, i + 2), "unknown escape sequence"@).with_note(
                "supported escapes: \\n \\t \\\\ \\\""@,
            )),
        }
    } else {
        string_body(b, start, i + 1, acc.push(b[i]))
    }
}

/// What the scanner does at offset `i`.
pub enum Step {
    /// Whitespace or a comment, up to the offset.
    Skip(int),
    /// A token, and the offset after it.
    Emit(TokenV, int),
    Fail(DiagV),
}

pub open spec fn tokv(t: TokV, start: int, end: int) -> TokenV {
    TokenV { tok: t, span: sp(start, end) }
}

/// One step of the scanner at offset `i < b.len()`.
pub open spec fn step(b: Seq<u8>, i: int) -> Step {
    let c = b[i];
    if is_ws(c) {
        Step::Skip(i + 1)
    } else if c == 47 && i + 1 < b.len() && b[i + 1] == 47 {
        Step::Skip(line_comment_end(b, i))
    } else if c == 47 && i + 1 < b.len() && b[i + 1] == 42 {
        match block_comment_end(b, i + 2, 1) {
            Some(j) => Step::Skip(j),
            None => Step::Fail(e001(sp(i, i + 2), "unterminated block comment"@)),
        }
    } else if is_alpha(c) || c == 95 {
        let j = word_end(b, i);
        Step::Emit(tokv(word_tok(b.subrange(i, j)), i, j), j)
    } else if is_digit(c) {
        let j = number_end(b, i);
        if j < b.len() && (is_alpha(b[j]) || b[j] == 95) {
            Step::Fail(e001(sp(i, j + 1), "invalid suffix on integer literal"@))
        } else if digits_value(b.subrange(i, j)) > i64::MAX {
            Step::Fail(
                e001(sp(i, j), "integer literal is too large for i64"@).with_note(
                    "i64 ranges from -9223372036854775808 to 9223372036854775807"@,
                ),
            )
        } else {
            Step::Emit(tokv(TokV::Int(digits_value(b.subrange(i, j)) as i64), i, j), j)
        }
    } else if c == 34 {
        match string_body(b, i, i + 1, Seq::empty()) {
            Ok((content, j)) => Step::Emit(tokv(TokV::Str(decode_utf8(content)), i, j), j),
            Err(d) => Step::Fail(d),
        }
    } else if i + 1 < b.len() && two_char_tok(c, b[i + 1]) is Some {
        Step::Emit(tokv(two_char_tok(c, b[i + 1])->0, i, i + 2), i + 2)
    } else if one_char_tok(c) is Some {
        Step::Emit(tokv(one_char_tok(c)->0, i, i + 1), i + 1)
    } else {
        let j = char_end(b, i);
        Step::Fail(
            e001(
                sp(i, j),
                "unexpected character `"@ + decode_utf8(b.subrange(i, j)) + "`"@,
            ),
        )
    }
}

/// The tokens of `b` from offset `i`, ending in `Eof`, or the first error.
pub open spec fn lex_from(b: Seq<u8>, i: int) -> Result<Seq<TokenV>, DiagV>
    decreases b.len() - i,
{
    if i >= b.len() {
        Ok(seq![tokv(TokV::Eof, b.len() as int, b.len() as int)])
    } else {
        match step(b, i) {
            Step::Skip(j) => if i < j <= b.len() {
                lex_from(b, j)
            } else {
                Err(e001(sp(i, i), Seq::empty()))
            },
            Step::Emit(t, j) => if i < j <= b.len() {
                match lex_from(b, j) {
                    Ok(rest) => Ok(seq![t] + rest),
                    Err(d) => Err(d),
                }
            } else {
                Err(e001(sp(i, i), Seq::empty()))
            },
            Step::Fail(d) => Err(d),
        }
    }
}

/// The tokens of a source text, or the first lexical error.
pub open spec fn spec_lex(b: Seq<u8>) -> Result<Seq<TokenV>, DiagV> {
    lex_from(b, 0)
}

pub open spec fn tokens_view(ts: Seq<Token>) -> Seq<TokenV> {
    ts.map_values(|t: Token| t@)
}

pub open spec fn lex_result_view(r: Result<Vec<Token>, Diagnostic>) -> Result<Seq<TokenV>, DiagV> {
    match r {
        Ok(ts) => Ok(tokens_view(ts@)),
        Err(d) => Err(d@),
    }
}


// ------------------------------------------------------------- scanning --

/// Boundary facts for offsets the scanner moves to.
proof fn lemma_boundary_at(b: Seq<u8>, j: int)
    requires
        valid_utf8(b),
        0 <= j <= b.len(),
        j == b.len() || (j < b.len() && b[j] < 0x80) || (j > 0 && b[j - 1] < 0x80),
    ensures
        is_char_boundary(b, j),
{
    is_char_boundary_start_end_of_seq(b);
    if j == b.len() {
    } else if j < b.len() && b[j] < 0x80 {
        lemma_ascii_is_boundary(b, j);
    } else {
        lemma_ascii_is_boundary(b, j - 1);
        lemma_boundary_after_ascii(b, j - 1);
    }
}

proof fn lemma_ascii_valid(e: u8)
    requires
        e < 0x80,
    ensures
        valid_utf8(seq![e]),
{
    reveal_with_fuel(valid_utf8, 2);
    let s = seq![e];
    assert(is_leading_byte_width_1(e)) by (bit_vector)
        requires e < 0x80;
    assert(s[0] == e);
    assert(valid_first_scalar(s));
    assert(pop_first_scalar(s) =~= Seq::<u8>::empty());
}

/// Bytes between two character boundaries form valid UTF-8.
proof fn lemma_valid_between(b: Seq<u8>, lo: int, hi: int)
    requires
        valid_utf8(b),
        0 <= lo <= hi <= b.len(),
        is_char_boundary(b, lo),
        is_char_boundary(b, hi),
    ensures
        valid_utf8(b.subrange(lo, hi)),
{
    valid_utf8_split(b, hi);
    let p = b.subrange(0, hi);
    if lo < hi {
        is_char_boundary_iff_not_is_continuation_byte(b, lo);
        is_char_boundary_iff_not_is_continuation_byte(p, lo);
        assert(p[lo] == b[lo]);
    } else {
        is_char_boundary_start_end_of_seq(p);
    }
    valid_utf8_split(p, lo);
    assert(p.subrange(lo, p.len() as int) =~= b.subrange(lo, hi));
}

/// The contents of a string literal are valid UTF-8.
proof fn lemma_string_body_valid(b: Seq<u8>, start: int, i: int, done: Seq<u8>, seg: int)
    requires
        valid_utf8(b),
        0 <= seg <= i <= b.len(),
        is_char_boundary(b, seg),
        valid_utf8(done),
        string_body(b, start, i, done + b.subrange(seg, i)) is Ok,
    ensures
        valid_utf8(string_body(b, start, i, done + b.subrange(seg, i))->Ok_0.0),
    decreases b.len() - i,
{
    let acc = done + b.subrange(seg, i);
    if i >= b.len() || b[i] == 10 {
    } else if b[i] == 34 {
        lemma_boundary_at(b, i);
        lemma_valid_between(b, seg, i);
        valid_utf8_concat(done, b.subrange(seg, i));
    } else if b[i] == 92 {
        let e = escape_byte(b[i + 1])->0;
        lemma_boundary_at(b, i);
        lemma_valid_between(b, seg, i);
        valid_utf8_concat(done, b.subrange(seg, i));
        lemma_ascii_valid(e);
        valid_utf8_concat(acc, seq![e]);
        let done2 = acc.push(e);
        assert(done2 =~= acc + seq![e]);
        lemma_boundary_at(b, i + 2);
        assert(done2 + b.subrange(i + 2, i + 2) =~= done2);
        lemma_string_body_valid(b, start, i + 2, done2, i + 2);
    } else {
        assert(acc.push(b[i]) =~= done + b.subrange(seg, i + 1));
        lemma_string_body_valid(b, start, i + 1, done, seg);
    }
}

/// Digits values only grow as digits are appended.
proof fn lemma_digits_monotone(d: Seq<u8>, k: int)
    requires
        0 <= k <= d.len(),
        forall|m: int| 0 <= m < d.len() ==> is_digit(#[trigger] d[m]) || d[m] == 95,
    ensures
        digits_value(d.subrange(0, k)) <= digits_value(d),
        0 <= digits_value(d.subrange(0, k)),
    decreases d.len(),
{
    if k == d.len() {
        assert(d.subrange(0, k) =~= d);
        lemma_digits_nonneg(d);
    } else {
        let p = d.drop_last();
        assert(p.subrange(0, k) =~= d.subrange(0, k));
        lemma_digits_monotone(p, k);
        lemma_digits_nonneg(p);
    }
}

proof fn lemma_digits_nonneg(d: Seq<u8>)
    requires
        forall|m: int| 0 <= m < d.len() ==> is_digit(#[trigger] d[m]) || d[m] == 95,
    ensures
        0 <= digits_value(d),
    decreases d.len(),
{
    if d.len() > 0 {
        lemma_digits_nonneg(d.drop_last());
    }
}

fn scan_line_comment(b: &[u8], i: usize) -> (j: usize)
    requires
        i <= b@.len(),
    ensures
        j == line_comment_end(b@, i as int),
        i <= j <= b@.len(),
        j == b@.len() || b@[j as int] == 10,
{
    let mut j = i;
    while j < b.len() && b[j] != 10u8
        invariant
            i <= j <= b@.len(),
            line_comment_end(b@, i as int) == line_comment_end(b@, j as int),
        decreases b.len() - j,
    {
        j = j + 1;
    }
    j
}

fn scan_block_comment(b: &[u8], i: usize) -> (r: Option<usize>)
    requires
        i <= b@.len(),
        b@.len() <= isize::MAX,
    ensures
        match r {
            Some(j) => block_comment_end(b@, i as int, 1) == Some(j as int) && i < j <= b@.len()
                && b@[j - 1] == 47,
            None => block_comment_end(b@, i as int, 1) is None,
        },
{
    let mut j = i;
    let mut depth: usize = 1;
    while j < b.len() && depth > 0
        invariant
            i <= j <= b@.len(),
            b@.len() <= isize::MAX,
            depth <= j + 1,
            block_comment_end(b@, i as int, 1) == block_comment_end(b@, j as int, depth as nat),
            depth < 1 ==> (i < j && b@[j - 1] == 47),
        decreases b.len() - j,
    {
        if b[j] == 47u8 && j + 1 < b.len() && b[j + 1] == 42u8 {
            depth = depth + 1;
            j = j + 2;
        } else if b[j] == 42u8 && j + 1 < b.len() && b[j + 1] == 47u8 {
            depth = depth - 1;
            j = j + 2;
        } else {
            j = j + 1;
        }
    }
    if depth > 0 {
        None
    } else {
        Some(j)
    }
}

fn scan_word(b: &[u8], i: usize) -> (j: usize)
    requires
        i <= b@.len(),
    ensures
        j == word_end(b@, i as int),
        i <= j <= b@.len(),
        forall|k: int| i <= k < j ==> is_word_byte(#[trigger] b@[k]),
        j == b@.len() || !is_word_byte(b@[j as int]),
{
    let mut j = i;
    while j < b.len() && ((65u8 <= b[j] && b[j] <= 90u8) || (97u8 <= b[j] && b[j] <= 122u8) || (48u8 <= b[j] && b[j] <= 57u8) || b[j] == 95u8)
        invariant
            i <= j <= b@.len(),
            word_end(b@, i as int) == word_end(b@, j as int),
            forall|k: int| i <= k < j ==> is_word_byte(#[trigger] b@[k]),
        decreases b.len() - j,
    {
        j = j + 1;
    }
    j
}

fn scan_number(b: &[u8], i: usize) -> (j: usize)
    requires
        i <= b@.len(),
    ensures
        j == number_end(b@, i as int),
        i <= j <= b@.len(),
        forall|k: int| i <= k < j ==> is_digit(#[trigger] b@[k]) || b@[k] == 95,
        j == b@.len() || !(is_digit(b@[j as int]) || b@[j as int] == 95),
{
    let mut j = i;
    while j < b.len() && ((48u8 <= b[j] && b[j] <= 57u8) || b[j] == 95u8)
        invariant
            i <= j <= b@.len(),
            number_end(b@, i as int) == number_end(b@, j as int),
            forall|k: int| i <= k < j ==> is_digit(#[trigger] b@[k]) || b@[k] == 95,
        decreases b.len() - j,
    {
        j = j + 1;
    }
    j
}

fn scan_char(b: &[u8], i: usize) -> (j: usize)
    requires
        i < b@.len(),
        b@.len() <= isize::MAX,
    ensures
        j == char_end(b@, i as int),
        i < j <= b@.len(),
        j == b@.len() || !is_continuation_byte(b@[j as int]),
{
    let mut j = i;
    while j + 1 < b.len() && 0x80u8 <= b[j + 1] && b[j + 1] <= 0xbfu8
        invariant
            i <= j < b@.len(),
            b@.len() <= isize::MAX,
            char_end(b@, i as int) == char_end(b@, j as int),
        decreases b.len() - j,
    {
        j = j + 1;
    }
    j + 1
}

/// Value of the digits `b[i..j]`, or `None` when it exceeds `i64::MAX`.
fn number_value(b: &[u8], i: usize, j: usize) -> (r: Option<i64>)
    requires
        i <= j <= b@.len(),
        forall|k: int| i <= k < j ==> is_digit(#[trigger] b@[k]) || b@[k] == 95,
    ensures
        match r {
            Some(v) => digits_value(b@.subrange(i as int, j as int)) == v,
            None => digits_value(b@.subrange(i as int, j as int)) > i64::MAX,
        },
{
    let ghost d = b@.subrange(i as int, j as int);
    let mut v: i64 = 0;
    let mut k = i;
    assert(b@.subrange(i as int, i as int) =~= Seq::<u8>::empty());
    while k < j
        invariant
            i <= k <= j <= b@.len(),
            d == b@.subrange(i as int, j as int),
            forall|m: int| i <= m < j ==> is_digit(#[trigger] b@[m]) || b@[m] == 95,
            v == digits_value(b@.subrange(i as int, k as int)),
            v >= 0,
        decreases j - k,
    {
        assert(b@.subrange(i as int, k + 1).drop_last() =~= b@.subrange(i as int, k as int));
        if b[k] != 95u8 {
            let dg = (b[k] - 48u8) as i64;
            match v.checked_mul(10) {
                Some(v10) => match v10.checked_add(dg) {
                    Some(nv) => {
                        v = nv;
                    },
                    None => {
                        proof {
                            assert(d.subrange(0, k + 1 - i) =~= b@.subrange(i as int, k + 1));
                            lemma_digits_monotone(d, k + 1 - i);
                        }
                        return None;
                    },
                },
                None => {
                    proof {
                        assert(d.subrange(0, k + 1 - i) =~= b@.subrange(i as int, k + 1));
                        lemma_digits_monotone(d, k + 1 - i);
                    }
                    return None;
                },
            }
        }
        k = k + 1;
    }
    Some(v)
}

/// Scans a string literal opened by the quote at `start`.
fn scan_string(b: &[u8], start: usize) -> (r: Result<(Vec<u8>, usize), Diagnostic>)
    requires
        start < b@.len(),
        b@.len() <= isize::MAX,
    ensures
        match r {
            Ok((content, j)) => string_body(b@, start as int, start + 1, Seq::empty()) == Ok::<
                (Seq<u8>, int),
                DiagV,
            >((content@, j as int)) && start < j <= b@.len() && b@[j - 1] == 34,
            Err(d) => string_body(b@, start as int, start + 1, Seq::empty()) == Err::<
                (Seq<u8>, int),
                DiagV,
            >(d@),
        },
{
    let mut acc: Vec<u8> = Vec::new();
    let mut i = start + 1;
    loop
        invariant
            start < i <= b@.len() + 1,
            b@.len() <= isize::MAX,
            i <= b@.len() || i == start + 1,
            string_body(b@, start as int, start + 1, Seq::empty()) == string_body(
                b@,
                start as int,
                i as int,
                acc@,
            ),
        decreases b@.len() - i,
    {
        if i >= b.len() || b[i] == 10u8 {
            return Err(Diagnostic::new("E001", Span::new(start, i), String::from_str("unterminated string literal")));
        }
        if b[i] == 34u8 {
            return Ok((acc, i + 1));
        }
        if b[i] == 92u8 {
            let e: u8 = if i + 1 < b.len() {
                if b[i + 1] == 110u8 {
                    10u8
                } else if b[i + 1] == 116u8 {
                    9u8
                } else if b[i + 1] == 92u8 {
                    92u8
                } else if b[i + 1] == 34u8 {
                    34u8
                } else {
                    0u8
                }
            } else {
                0u8
            };
            if e == 0u8 {
                let d = Diagnostic::new("E001", Span::new(i, i + 2), String::from_str("unknown escape sequence"));
                return Err(d.note(String::from_str("supported escapes: \\n \\t \\\\ \\\"")));
            }
            acc.push(e);
            i = i + 2;
        } else {
            acc.push(b[i]);
            i = i + 1;
        }
    }
}

/// The token of the word `b[i..j]`.
fn word_token(src: &str, b: &[u8], i: usize, j: usize) -> (t: Tok)
    requires
        b@ == src.spec_bytes(),
        i < j <= b@.len(),
        is_char_boundary(b@, i as int),
        forall|k: int| i <= k < j ==> is_word_byte(#[trigger] b@[k]),
    ensures
        t@ == word_tok(b@.subrange(i as int, j as int)),
{
    let n = j - i;
    let ghost w = b@.subrange(i as int, j as int);
    assert(forall|k: int| 0 <= k < w.len() ==> w[k] == b@[i + k]);
    proof {
        encode_utf8_valid_utf8(src@);
        lemma_boundary_at(b@, j as int);
    }
    if n == 2 && b[i] == 102u8 && b[i + 1] == 110u8 {
        assert(w =~= seq![102u8, 110u8]);
        return Tok::Fn;
    }
    if n == 3 && b[i] == 108u8 && b[i + 1] == 101u8 && b[i + 2] == 116u8 {
        assert(w =~= seq![108u8, 101u8, 116u8]);
        return Tok::Let;
    }
    if n == 3 && b[i] == 109u8 && b[i + 1] == 117u8 && b[i + 2] == 116u8 {
        assert(w =~= seq![109u8, 117u8, 116u8]);
        return Tok::Mut;
    }
    if n == 2 && b[i] == 105u8 && b[i + 1] == 102u8 {
        assert(w =~= seq![105u8, 102u8]);
        return Tok::If;
    }
    if n == 4 && b[i] == 101u8 && b[i + 1] == 108u8 && b[i + 2] == 115u8 && b[i + 3] == 101u8 {
        assert(w =~= seq![101u8, 108u8, 115u8, 101u8]);
        return Tok::Else;
    }
    if n == 5 && b[i] == 119u8 && b[i + 1] == 104u8 && b[i + 2] == 105u8 && b[i + 3] == 108u8 && b[i + 4] == 101u8 {
        assert(w =~= seq![119u8, 104u8, 105u8, 108u8, 101u8]);
        return Tok::While;
    }
    if n == 6 && b[i] == 114u8 && b[i + 1] == 101u8 && b[i + 2] == 116u8 && b[i + 3] == 117u8 && b[i + 4] == 114u8 && b[i + 5] == 110u8 {
        assert(w =~= seq![114u8, 101u8, 116u8, 117u8, 114u8, 110u8]);
        return Tok::Return;
    }
    if n == 4 && b[i] == 116u8 && b[i + 1] == 114u8 && b[i + 2] == 117u8 && b[i + 3] == 101u8 {
        assert(w =~= seq![116u8, 114u8, 117u8, 101u8]);
        return Tok::True;
    }
    if n == 5 && b[i] == 102u8 && b[i + 1] == 97u8 && b[i + 2] == 108u8 && b[i + 3] == 115u8 && b[i + 4] == 101u8 {
        assert(w =~= seq![102u8, 97u8, 108u8, 115u8, 101u8]);
        return Tok::False;
    }
    let word = str_slice(src, i, j);
    let name = word.to_owned();
    proof {
        encode_utf8_decode_utf8(word@);
    }
    Tok::Ident(name)
}


/// One step of the scanner, as computed.
enum Scanned {
    Skip(usize),
    Emit(Token, usize),
    Fail(Diagnostic),
}

impl View for Scanned {
    type V = Step;

    closed spec fn view(&self) -> Step {
        match self {
            Scanned::Skip(j) => Step::Skip(*j as int),
            Scanned::Emit(t, j) => Step::Emit(t@, *j as int),
            Scanned::Fail(d) => Step::Fail(d@),
        }
    }
}

fn token(tok: Tok, start: usize, end: usize) -> (t: Token)
    ensures
        t@ == tokv(tok@, start as int, end as int),
{
    Token { tok, span: Span::new(start, end) }
}

fn two_char(c: u8, d: u8) -> (r: Option<Tok>)
    ensures
        match r {
            Some(t) => two_char_tok(c, d) == Some(t@),
            None => two_char_tok(c, d) is None,
        },
{
    if c == 45u8 && d == 62u8 {
        Some(Tok::Arrow)
    } else if c == 60u8 && d == 61u8 {
        Some(Tok::Le)
    } else if c == 62u8 && d == 61u8 {
        Some(Tok::Ge)
    } else if c == 61u8 && d == 61u8 {
        Some(Tok::EqEq)
    } else if c == 33u8 && d == 61u8 {
        Some(Tok::Ne)
    } else if c == 38u8 && d == 38u8 {
        Some(Tok::AndAnd)
    } else if c == 124u8 && d == 124u8 {
        Some(Tok::OrOr)
    } else {
        None
    }
}

fn one_char(c: u8) -> (r: Option<Tok>)
    ensures
        match r {
            Some(t) => one_char_tok(c) == Some(t@),
            None => one_char_tok(c) is None,
        },
{
    if c == 40u8 {
        Some(Tok::LParen)
    } else if c == 41u8 {
        Some(Tok::RParen)
    } else if c == 123u8 {
        Some(Tok::LBrace)
    } else if c == 125u8 {
        Some(Tok::RBrace)
    } else if c == 44u8 {
        Some(Tok::Comma)
    } else if c == 58u8 {
        Some(Tok::Colon)
    } else if c == 59u8 {
        Some(Tok::Semi)
    } else if c == 61u8 {
        Some(Tok::Assign)
    } else if c == 43u8 {
        Some(Tok::Plus)
    } else if c == 45u8 {
        Some(Tok::Minus)
    } else if c == 42u8 {
        Some(Tok::Star)
    } else if c == 47u8 {
        Some(Tok::Slash)
    } else if c == 37u8 {
        Some(Tok::Percent)
    } else if c == 60u8 {
        Some(Tok::Lt)
    } else if c == 62u8 {
        Some(Tok::Gt)
    } else if c == 33u8 {
        Some(Tok::Bang)
    } else {
        None
    }
}

/// Scans the lexeme at offset `i`.
fn scan(src: &str, b: &[u8], i: usize) -> (r: Scanned)
    requires
        b@ == src.spec_bytes(),
        b@.len() <= isize::MAX,
        i < b@.len(),
        is_char_boundary(b@, i as int),
    ensures
        r@ == step(b@, i as int),
        match r {
            Scanned::Skip(j) => i < j <= b@.len() && is_char_boundary(b@, j as int),
            Scanned::Emit(_, j) => i < j <= b@.len() && is_char_boundary(b@, j as int),
            Scanned::Fail(_) => true,
        },
{
    proof {
        encode_utf8_valid_utf8(src@);
    }
    let c = b[i];
    if c == 32u8 || c == 9u8 || c == 10u8 || c == 12u8 || c == 13u8 {
        proof {
            lemma_boundary_at(b@, i + 1);
        }
        return Scanned::Skip(i + 1);
    }
    if c == 47u8 && i + 1 < b.len() && b[i + 1] == 47u8 {
        let j = scan_line_comment(b, i);
        proof {
            lemma_boundary_at(b@, j as int);
        }
        return Scanned::Skip(j);
    }
    if c == 47u8 && i + 1 < b.len() && b[i + 1] == 42u8 {
        match scan_block_comment(b, i + 2) {
            Some(j) => {
                proof {
                    lemma_boundary_at(b@, j as int);
                }
                return Scanned::Skip(j);
            },
            None => {
                return Scanned::Fail(
                    Diagnostic::new("E001", Span::new(i, i + 2), String::from_str("unterminated block comment")),
                );
            },
        }
    }
    if (65u8 <= c && c <= 90u8) || (97u8 <= c && c <= 122u8) || c == 95u8 {
        let j = scan_word(b, i);
        let t = word_token(src, b, i, j);
        proof {
            lemma_boundary_at(b@, j as int);
        }
        return Scanned::Emit(token(t, i, j), j);
    }
    if 48u8 <= c && c <= 57u8 {
        let j = scan_number(b, i);
        if j < b.len() && ((65u8 <= b[j] && b[j] <= 90u8) || (97u8 <= b[j] && b[j] <= 122u8) || b[j] == 95u8) {
            return Scanned::Fail(
                Diagnostic::new("E001", Span::new(i, j + 1), String::from_str("invalid suffix on integer literal")),
            );
        }
        match number_value(b, i, j) {
            Some(v) => {
                proof {
                    lemma_boundary_at(b@, j as int);
                }
                return Scanned::Emit(token(Tok::Int(v), i, j), j);
            },
            None => {
                let d = Diagnostic::new("E001", Span::new(i, j), String::from_str("integer literal is too large for i64"));
                return Scanned::Fail(
                    d.note(String::from_str("i64 ranges from -9223372036854775808 to 9223372036854775807")),
                );
            },
        }
    }
    if c == 34u8 {
        match scan_string(b, i) {
            Ok((content, j)) => {
                proof {
                    lemma_boundary_at(b@, i + 1);
                    assert(Seq::<u8>::empty() + b@.subrange(i + 1, i + 1) =~= Seq::<u8>::empty());
                    lemma_ascii_valid_empty();
                    lemma_string_body_valid(b@, i as int, i + 1, Seq::empty(), i + 1);
                    lemma_boundary_at(b@, j as int);
                }
                let s = string_from_utf8(content);
                return Scanned::Emit(token(Tok::Str(s), i, j), j);
            },
            Err(d) => {
                return Scanned::Fail(d);
            },
        }
    }
    if i + 1 < b.len() {
        match two_char(c, b[i + 1]) {
            Some(t) => {
                proof {
                    lemma_boundary_at(b@, i + 2);
                }
                return Scanned::Emit(token(t, i, i + 2), i + 2);
            },
            None => {},
        }
    }
    match one_char(c) {
        Some(t) => {
            proof {
                lemma_boundary_at(b@, i + 1);
            }
            Scanned::Emit(token(t, i, i + 1), i + 1)
        },
        None => {
            let j = scan_char(b, i);
            proof {
                is_char_boundary_start_end_of_seq(b@);
                if j < b@.len() {
                    is_char_boundary_iff_not_is_continuation_byte(b@, j as int);
                }
            }
            let ch = str_slice(src, i, j);
            proof {
                encode_utf8_decode_utf8(ch@);
            }
            let mut m = String::from_str("unexpected character `");
            m.append(ch);
            m.append("`");
            Scanned::Fail(Diagnostic::new("E001", Span::new(i, j), m))
        },
    }
}

proof fn lemma_ascii_valid_empty()
    ensures
        valid_utf8(Seq::<u8>::empty()),
{
    reveal_with_fuel(valid_utf8, 1);
}

/// Splits a source text into tokens ending in `Eof`, or reports the first
/// lexical error.
pub fn lex(src: &str) -> (r: Result<Vec<Token>, Diagnostic>)
    ensures
        lex_result_view(r) == spec_lex(src.spec_bytes()),
{
    let b = src.as_bytes();
    let len = str_len(src);
    let mut i: usize = 0;
    let mut out: Vec<Token> = Vec::new();
    proof {
        encode_utf8_valid_utf8(src@);
        is_char_boundary_start_end_of_seq(b@);
    }
    while i < len
        invariant
            b@ == src.spec_bytes(),
            len == b@.len(),
            len <= isize::MAX,
            i <= len,
            is_char_boundary(b@, i as int),
            spec_lex(b@) == (match lex_from(b@, i as int) {
                Ok(rest) => Ok(tokens_view(out@) + rest),
                Err(d) => Err(d),
            }),
        decreases len - i,
    {
        let ghost prev = tokens_view(out@);
        match scan(src, b, i) {
            Scanned::Skip(j) => {
                i = j;
            },
            Scanned::Emit(t, j) => {
                let ghost tv = t@;
                out.push(t);
                proof {
                    assert(tokens_view(out@) =~= prev + seq![tv]);
                    match lex_from(b@, j as int) {
                        Ok(rest) => {
                            assert(prev + (seq![tv] + rest) =~= tokens_view(out@) + rest);
                        },
                        Err(_) => {},
                    }
                }
                i = j;
            },
            Scanned::Fail(d) => {
                return Err(d);
            },
        }
    }
    let ghost prev = tokens_view(out@);
    out.push(Token { tok: Tok::Eof, span: Span::new(len, len) });
    assert(tokens_view(out@) =~= prev + seq![tokv(TokV::Eof, len as int, len as int)]);
    Ok(out)
}

/// The tokens from offset `i` end in `Eof`, and there are at most as many
/// as bytes left, plus one.
proof fn lemma_lex_from_shape(b: Seq<u8>, i: int)
    requires
        0 <= i,
        lex_from(b, i) is Ok,
    ensures
        lex_from(b, i)->Ok_0.len() >= 1,
        lex_from(b, i)->Ok_0.last().tok == TokV::Eof,
        lex_from(b, i)->Ok_0.len() <= (if i <= b.len() { b.len() - i } else { 0 }) + 1,
    decreases b.len() - i,
{
    if i < b.len() {
        match step(b, i) {
            Step::Skip(j) => {
                lemma_lex_from_shape(b, j);
            },
            Step::Emit(t, j) => {
                lemma_lex_from_shape(b, j);
                let rest = lex_from(b, j)->Ok_0;
                assert((seq![t] + rest).last() == rest.last());
            },
            Step::Fail(_) => {},
        }
    }
}

/// The lexer's tokens end in `Eof`, and there are at most as many as
/// bytes, plus one.
pub proof fn lemma_lex_shape(b: Seq<u8>)
    requires
        spec_lex(b) is Ok,
    ensures
        spec_lex(b)->Ok_0.len() >= 1,
        spec_lex(b)->Ok_0.last().tok == TokV::Eof,
        spec_lex(b)->Ok_0.len() <= b.len() + 1,
{
    lemma_lex_from_shape(b, 0);
}

} // verus!
