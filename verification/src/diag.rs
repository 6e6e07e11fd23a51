//! Diagnostics with source spans, and line/column lookup over a source
//! text for rendering them rustc-style.

use vstd::prelude::*;
use vstd::string::*;
use vstd::utf8::*;

use crate::text::{
    lemma_ascii_is_boundary, lemma_boundary_after_ascii, nat_len, nat_text, pad_left, push_char, push_nat,
    push_nat_padded, push_repeat, repeat_char, str_len, str_slice,
};

verus! {


/// A byte range of the source.
#[derive(Debug, Clone, Copy, PartialEq, Eq, Structural)]
pub struct Span {
    /// Byte offsets into the source.
    pub start: usize,
    pub end: usize,
}

impl Default for Span {
    fn default() -> (s: Span)
        ensures
            s.start == 0 && s.end == 0,
    {
        Span { start: 0, end: 0 }
    }
}

impl Span {
    pub fn new(start: usize, end: usize) -> (s: Span)
        ensures
            s.start == start && s.end == end,
    {
        Span { start, end }
    }

    /// The smallest span covering both `self` and `other`.
    pub open spec fn spec_to(self, other: Span) -> Span {
        Span {
            start: if self.start <= other.start { self.start } else { other.start },
            end: if self.end >= other.end { self.end } else { other.end },
        }
    }

    pub fn to(self, other: Span) -> (s: Span)
        ensures
            s == self.spec_to(other),
    {
        Span {
            start: if self.start <= other.start { self.start } else { other.start },
            end: if self.end >= other.end { self.end } else { other.end },
        }
    }
}

/// An error found in a program: a code such as `E011`, a message, the
/// span it points at, an optional label shown after the caret, and notes.
#[derive(Debug, Clone, PartialEq, Eq)]
pub struct Diagnostic {
    pub code: &'static str,
    pub message: String,
    pub span: Span,
    pub label: String,
    pub notes: Vec<String>,
}

/// What a diagnostic says: its code, message, span, label and notes.
pub struct DiagV {
    pub code: Seq<char>,
    pub message: Seq<char>,
    pub span: Span,
    pub label: Seq<char>,
    pub notes: Seq<Seq<char>>,
}

impl View for Diagnostic {
    type V = DiagV;

    open spec fn view(&self) -> DiagV {
        DiagV {
            code: self.code@,
            message: self.message@,
            span: self.span,
            label: self.label@,
            notes: self.notes@.map_values(|n: String| n@),
        }
    }
}

/// A diagnostic without label or notes.
pub open spec fn diag_v(code: Seq<char>, span: Span, message: Seq<char>) -> DiagV {
    DiagV { code, message, span, label: Seq::empty(), notes: Seq::empty() }
}

impl DiagV {
    pub open spec fn with_label(self, l: Seq<char>) -> DiagV {
        DiagV { label: l, ..self }
    }

    pub open spec fn with_note(self, n: Seq<char>) -> DiagV {
        DiagV { notes: self.notes.push(n), ..self }
    }
}

impl Diagnostic {
    pub fn new(code: &'static str, span: Span, message: String) -> (d: Diagnostic)
        ensures
            d.code == code,
            d.span == span,
            d.message@ == message@,
            d.label@ == Seq::<char>::empty(),
            d.notes@.len() == 0,
            d@ == diag_v(code@, span, message@),
    {

        let d = Diagnostic { code, message, span, label: String::new(), notes: Vec::new() };
        assert(d@.notes =~= Seq::<Seq<char>>::empty());
        d
    }

    /// Sets the label shown after the caret.
    pub fn label(self, l: String) -> (d: Diagnostic)
        ensures
            d.code == self.code,
            d.span == self.span,
            d.message@ == self.message@,
            d.label@ == l@,
            d.notes@ == self.notes@,
            d@ == self@.with_label(l@),
    {
        let mut d = self;
        d.label = l;
        d
    }

    /// Appends a note.
    pub fn note(self, n: String) -> (d: Diagnostic)
        ensures
            d.code == self.code,
            d.span == self.span,
            d.message@ == self.message@,
            d.label@ == self.label@,
            d.notes@ == self.notes@.push(n),
            d@ == self@.with_note(n@),
    {
        let mut d = self;
        let ghost n2 = n;
        d.notes.push(n);
        assert(d.notes@.map_values(|s: String| s@) =~= self.notes@.map_values(|s: String| s@).push(n2@));
        d
    }

    /// The one-line summary `error[CODE]: MESSAGE`.
    pub fn summary(&self) -> (s: String)
        ensures
            s@ == "error["@ + self.code@ + "]: "@ + self.message@,
    {
        let mut s = String::from_str("error[");
        s.append(self.code);
        s.append("]: ");
        s.append(self.message.as_str());
        s
    }
}

/// Offsets at which lines start in the first `n` bytes of `b`: 0, and one
/// past every newline.
pub open spec fn line_starts_upto(b: Seq<u8>, n: int) -> Seq<usize>
    decreases n,
{
    if n <= 0 {
        seq![0usize]
    } else {
        let p = line_starts_upto(b, n - 1);
        if b[n - 1] == 10u8 {
            p.push(n as usize)
        } else {
            p
        }
    }
}

/// Offsets at which the lines of `b` start.
pub open spec fn line_starts(b: Seq<u8>) -> Seq<usize> {
    line_starts_upto(b, b.len() as int)
}

/// 1-based line and column of the character at byte `off`: lines are
/// counted by newlines before `off`, columns by the characters (bytes that
/// are not UTF-8 continuation bytes) between the line start and `off`.
pub open spec fn spec_position_upto(b: Seq<u8>, off: int) -> (nat, nat)
    decreases off,
{
    if off <= 0 {
        (1, 1)
    } else {
        let (l, c) = spec_position_upto(b, off - 1);
        if b[off - 1] == 10u8 {
            (l + 1, 1)
        } else if is_continuation_byte(b[off - 1]) {
            (l, c)
        } else {
            (l, c + 1)
        }
    }
}

/// Position of a byte offset, clamped to the end of the text.
pub open spec fn spec_position(b: Seq<u8>, offset: int) -> (nat, nat) {
    spec_position_upto(b, if offset <= b.len() { offset } else { b.len() as int })
}

proof fn lemma_position_bounds(b: Seq<u8>, off: int)
    requires
        0 <= off <= b.len(),
    ensures
        1 <= spec_position_upto(b, off).0 <= off + 1,
        1 <= spec_position_upto(b, off).1 <= off + 1,
    decreases off,
{
    if off > 0 {
        lemma_position_bounds(b, off - 1);
    }
}

/// Facts about line starts: the first is 0, they increase strictly, each
/// later one follows a newline, and all lie within the text.
pub proof fn lemma_line_starts(b: Seq<u8>, n: int)
    requires
        0 <= n <= b.len(),
        b.len() <= usize::MAX,
    ensures
        line_starts_upto(b, n).len() >= 1,
        line_starts_upto(b, n)[0] == 0,
        line_starts_upto(b, n).len() <= n + 1,
        forall|k: int|
            0 <= k < line_starts_upto(b, n).len() ==> line_starts_upto(b, n)[k] <= n,
        forall|k: int|
            0 < k < line_starts_upto(b, n).len() ==> line_starts_upto(b, n)[k - 1]
                < #[trigger] line_starts_upto(b, n)[k],
        forall|k: int|
            0 < k < line_starts_upto(b, n).len() ==> b[#[trigger] line_starts_upto(b, n)[k] - 1]
                == 10u8,
    decreases n,
{
    if n > 0 {
        lemma_line_starts(b, n - 1);
        let p = line_starts_upto(b, n - 1);
        let q = line_starts_upto(b, n);
        if b[n - 1] == 10u8 {
            assert(q == p.push(n as usize));
            assert forall|k: int| 0 < k < q.len() implies q[k - 1] < #[trigger] q[k] by {
                if k < p.len() {
                    assert(q[k] == p[k]);
                    assert(q[k - 1] == p[k - 1]);
                }
            }
            assert forall|k: int| 0 < k < q.len() implies b[#[trigger] q[k] - 1] == 10u8 by {
                if k < p.len() {
                    assert(q[k] == p[k]);
                }
            }
        }
    }
}

/// Line/column lookup over a source text.
pub struct Source<'a> {
    pub name: &'a str,
    pub text: &'a str,
    line_starts: Vec<usize>,
}

impl<'a> Source<'a> {
    /// The name of the source (a file name).
    pub closed spec fn spec_name(&self) -> &'a str {
        self.name
    }

    /// The source text.
    pub closed spec fn spec_text(&self) -> &'a str {
        self.text
    }

    /// The line table matches the text.
    pub closed spec fn wf(&self) -> bool {
        self.line_starts@ == line_starts(self.text.spec_bytes())
    }

    pub fn new(name: &'a str, text: &'a str) -> (s: Source<'a>)
        ensures
            s.spec_name() == name,
            s.spec_text() == text,
            s.wf(),
    {
        let b = text.as_bytes();
        let mut line_starts: Vec<usize> = Vec::new();
        line_starts.push(0);
        let mut i: usize = 0;
        while i < b.len()
            invariant
                i <= b@.len(),
                b@ == text.spec_bytes(),
                line_starts@ == line_starts_upto(b@, i as int),
            decreases b.len() - i,
        {
            if b[i] == 10u8 {
                line_starts.push(i + 1);
            }
            i = i + 1;
        }
        Source { name, text, line_starts }
    }

    /// 1-based (line, column) of a byte offset.
    pub fn position(&self, offset: usize) -> (r: (usize, usize))
        ensures
            r.0 == spec_position(self.spec_text().spec_bytes(), offset as int).0,
            r.1 == spec_position(self.spec_text().spec_bytes(), offset as int).1,
            r.0 >= 1,
            r.1 >= 1,
    {
        let b = self.text.as_bytes();
        let len = str_len(self.text);
        let off = if offset <= len { offset } else { len };
        let mut line: usize = 1;
        let mut col: usize = 1;
        let mut i: usize = 0;
        while i < off
            invariant
                off <= b@.len(),
                off <= isize::MAX,
                i <= off,
                b@ == self.spec_text().spec_bytes(),
                (line as nat, col as nat) == spec_position_upto(b@, i as int),
            decreases off - i,
        {
            proof {
                lemma_position_bounds(b@, i as int);
            }
            if b[i] == 10u8 {
                line = line + 1;
                col = 1;
            } else if 0x80u8 <= b[i] && b[i] <= 0xbfu8 {
            } else {
                col = col + 1;
            }
            i = i + 1;
        }
        proof {
            lemma_position_bounds(b@, off as int);
        }
        (line, col)
    }

    /// Number of lines.
    pub fn line_count(&self) -> (n: usize)
        requires
            self.wf(),
        ensures
            n == line_starts(self.spec_text().spec_bytes()).len(),
            n >= 1,
    {
        let _len = str_len(self.text);
        proof {
            lemma_line_starts(self.spec_text().spec_bytes(), self.spec_text().spec_bytes().len() as int);
        }
        self.line_starts.len()
    }

    /// The text of a 1-based line, without its line break (and without
    /// trailing carriage returns).
    pub fn line_text(&self, line: usize) -> (r: &'a str)
        requires
            self.wf(),
            1 <= line <= line_starts(self.spec_text().spec_bytes()).len(),
        ensures
            r.spec_bytes() == self.spec_text().spec_bytes().subrange(
                line_starts(self.spec_text().spec_bytes())[line - 1] as int,
                line_end(self.spec_text().spec_bytes(), line as int),
            ),
    {
        let ghost bs = self.spec_text().spec_bytes();
        let b = self.text.as_bytes();
        let _len = str_len(self.text);
        proof {
            encode_utf8_valid_utf8(self.text@);
            lemma_line_starts(bs, bs.len() as int);
        }
        let start = self.line_starts[line - 1];
        let mut end = if line < self.line_starts.len() {
            self.line_starts[line] - 1
        } else {
            b.len()
        };
        let ghost raw_end = end;
        while end > start && b[end - 1] == 13u8
            invariant
                b@ == bs,
                start <= end <= raw_end <= bs.len(),
                start == line_starts(bs)[line - 1],
                raw_end == (if line < line_starts(bs).len() { line_starts(bs)[line as int] - 1 } else { bs.len() as int }),
                line_end(bs, line as int) == trim_cr(bs, start as int, raw_end as int),
                trim_cr(bs, start as int, end as int) == trim_cr(bs, start as int, raw_end as int),
                end < raw_end ==> bs[end as int] == 13u8,
            decreases end,
        {
            end = end - 1;
        }
        proof {
            lemma_start_is_boundary(bs, line as int);
            is_char_boundary_start_end_of_seq(bs);
            if end < raw_end {
                lemma_ascii_is_boundary(bs, end as int);
            } else if line < line_starts(bs).len() {
                assert(bs[line_starts(bs)[line as int] - 1] == 10u8);
                lemma_ascii_is_boundary(bs, end as int);
            }
        }
        str_slice(self.text, start, end)
    }
}


// ------------------------------------------------------------ rendering --

/// The escape codes for red, bold, blue and reset, or none.
pub open spec fn palette(color: bool) -> (Seq<char>, Seq<char>, Seq<char>, Seq<char>) {
    if color {
        ("\x1b[31;1m"@, "\x1b[1m"@, "\x1b[34;1m"@, "\x1b[0m"@)
    } else {
        (""@, ""@, ""@, ""@)
    }
}

pub open spec fn spaces(n: int) -> Seq<char> {
    repeat_char(' ', if n > 0 { n as nat } else { 0 })
}

pub open spec fn max(a: int, b: int) -> int {
    if a >= b { a } else { b }
}

pub open spec fn min(a: int, b: int) -> int {
    if a <= b { a } else { b }
}

/// The number of carets under a span starting at `(line, col)`: up to its
/// end when that is on the same line, else the span's width but no further
/// than the end of the line; at least one.
pub open spec fn caret_count(b: Seq<u8>, d: DiagV) -> int {
    let (line, col) = spec_position(b, d.span.start as int);
    let (eline, ecol) = spec_position(b, max(d.span.end as int, d.span.start as int));
    let width = max(max(d.span.end as int, d.span.start + 1) - d.span.start, 1);
    let text_len = line_end(b, line as int) - line_starts(b)[line - 1];
    if eline == line {
        max(ecol - col, 1)
    } else {
        min(width, max(text_len - (col - 1), 1))
    }
}

/// The note lines of a rendered diagnostic.
pub open spec fn notes_text(notes: Seq<Seq<char>>, g: int, color: bool) -> Seq<char>
    decreases notes.len(),
{
    if notes.len() == 0 {
        Seq::empty()
    } else {
        notes_text(notes.drop_last(), g, color) + note_text(notes.last(), g, color)
    }
}

/// A note line.
pub open spec fn note_text(n: Seq<char>, g: int, color: bool) -> Seq<char> {
    let (red, bold, blue, reset) = palette(color);
    spaces(g) + " "@ + blue + "="@ + reset + " "@ + bold + "note"@ + reset + ": "@ + n + seq!['\n']
}

pub open spec fn head_text(d: DiagV, color: bool) -> Seq<char> {
    let (red, bold, blue, reset) = palette(color);
    red + "error["@ + d.code + "]"@ + reset + bold + ": "@ + d.message + reset + seq!['\n']
}

pub open spec fn loc_text(name: Seq<char>, line: nat, col: nat, g: int, color: bool) -> Seq<char> {
    let (red, bold, blue, reset) = palette(color);
    spaces(g) + blue + "-->"@ + reset + " "@ + name + ":"@ + nat_text(line) + ":"@ + nat_text(col) + seq!['\n']
}

pub open spec fn bar_text(g: int, color: bool) -> Seq<char> {
    let (red, bold, blue, reset) = palette(color);
    spaces(g) + " "@ + blue + "|"@ + reset + seq!['\n']
}

pub open spec fn src_text(line: nat, text: Seq<char>, g: int, color: bool) -> Seq<char> {
    let (red, bold, blue, reset) = palette(color);
    blue + pad_left(nat_text(line), g as nat) + " |"@ + reset + " "@ + text + seq!['\n']
}

pub open spec fn marks_text(col: nat, carets: int, g: int, color: bool) -> Seq<char> {
    let (red, bold, blue, reset) = palette(color);
    spaces(g) + " "@ + blue + "|"@ + reset + " "@ + spaces(col - 1) + red + repeat_char('^', carets as nat) + reset
}

pub open spec fn label_text(label: Seq<char>, color: bool) -> Seq<char> {
    let (red, bold, blue, reset) = palette(color);
    if label.len() == 0 { Seq::empty() } else { " "@ + red + label + reset }
}

pub open spec fn caret_text(col: nat, carets: int, label: Seq<char>, g: int, color: bool) -> Seq<char> {
    marks_text(col, carets, g, color) + label_text(label, color) + seq!['\n']
}

/// A diagnostic rendered against the source `b` named `name`: the message,
/// the position, the source line with carets under the span (and the
/// label after them), and the notes.
pub open spec fn render_text(name: Seq<char>, b: Seq<u8>, d: DiagV, color: bool) -> Seq<char> {
    let (line, col) = spec_position(b, d.span.start as int);
    let g: int = (nat_text(line).len() + 1) as int;
    let text = decode_utf8(b.subrange(line_starts(b)[line - 1] as int, line_end(b, line as int)));
    head_text(d, color) + loc_text(name, line, col, g, color) + bar_text(g, color) + src_text(line, text, g, color)
        + caret_text(col, caret_count(b, d), d.label, g, color) + notes_text(d.notes, g, color)
}

/// Trimming carriage returns stays between the line's start and end.
proof fn lemma_trim_cr_bounds(b: Seq<u8>, start: int, end: int)
    requires
        start <= end,
    ensures
        start <= trim_cr(b, start, end) <= end,
    decreases end - start,
{
    if end > start && b[end - 1] == 13u8 {
        lemma_trim_cr_bounds(b, start, end - 1);
    }
}

/// The bounds of a line of the text.
proof fn lemma_line_bounds(b: Seq<u8>, line: int)
    requires
        b.len() <= usize::MAX,
        1 <= line <= line_starts(b).len(),
    ensures
        0 <= line_starts(b)[line - 1] <= line_end(b, line) <= b.len(),
{
    lemma_line_starts(b, b.len() as int);
    let starts = line_starts(b);
    let raw_end = if line < starts.len() { starts[line] - 1 } else { b.len() as int };
    lemma_trim_cr_bounds(b, starts[line - 1] as int, raw_end);
}

/// The line of an offset is a line of the text.
proof fn lemma_position_line(b: Seq<u8>, off: int)
    requires
        0 <= off <= b.len(),
    ensures
        spec_position_upto(b, off).0 == line_starts_upto(b, off).len(),
    decreases off,
{
    if off > 0 {
        lemma_position_line(b, off - 1);
    }
}

proof fn lemma_line_starts_mono(b: Seq<u8>, m: int, n: int)
    requires
        0 <= m <= n <= b.len(),
    ensures
        line_starts_upto(b, m).len() <= line_starts_upto(b, n).len(),
    decreases n,
{
    if m < n {
        lemma_line_starts_mono(b, m, n - 1);
    }
}

fn palette_exec(color: bool) -> (r: (&'static str, &'static str, &'static str, &'static str))
    ensures
        (r.0@, r.1@, r.2@, r.3@) == palette(color),
{
    if color {
        ("\x1b[31;1m", "\x1b[1m", "\x1b[34;1m", "\x1b[0m")
    } else {
        ("", "", "", "")
    }
}

impl<'a> Source<'a> {
    fn caret_count(&self, d: &Diagnostic) -> (n: usize)
        requires
            self.wf(),
            d.span.start < usize::MAX,
        ensures
            n == caret_count(self.spec_text().spec_bytes(), d@),
    {
        let ghost b = self.spec_text().spec_bytes();
        let (line, col) = self.position(d.span.start);
        let emax = if d.span.end >= d.span.start { d.span.end } else { d.span.start };
        let (eline, ecol) = self.position(emax);
        let e1 = if d.span.end >= d.span.start + 1 { d.span.end } else { d.span.start + 1 };
        let w0 = e1 - d.span.start;
        let width = if w0 >= 1 { w0 } else { 1 };
        if eline == line {
            let diff = if ecol >= col { ecol - col } else { 0 };
            if diff >= 1 { diff } else { 1 }
        } else {
            let _l = str_len(self.text);
            proof {
                lemma_line_starts(b, b.len() as int);
                let off = if d.span.start <= b.len() { d.span.start as int } else { b.len() as int };
                lemma_position_line(b, off);
                lemma_line_starts_mono(b, off, b.len() as int);
            }
            proof {
                lemma_line_bounds(b, line as int);
            }
            let text = self.line_text(line);
            let tl = str_len(text);
            let rest = if tl >= col - 1 { tl - (col - 1) } else { 0 };
            let r = if rest >= 1 { rest } else { 1 };
            if width <= r { width } else { r }
        }
    }

    /// Renders a diagnostic rustc-style, with ANSI colours when `color`.
    pub fn render(&self, d: &Diagnostic, color: bool) -> (s: String)
        requires
            self.wf(),
            d.span.start < usize::MAX,
        ensures
            s@ == render_text(self.spec_name()@, self.spec_text().spec_bytes(), d@, color),
    {
        let ghost b = self.spec_text().spec_bytes();
        let (line, col) = self.position(d.span.start);
        let carets = self.caret_count(d);
        let g = nat_len(line as u64) + 1;
        let _l = str_len(self.text);
        proof {
            lemma_line_starts(b, b.len() as int);
            let off = if d.span.start <= b.len() { d.span.start as int } else { b.len() as int };
            lemma_position_line(b, off);
            lemma_line_starts_mono(b, off, b.len() as int);
        }
        let text = self.line_text(line);
        proof {
            encode_utf8_decode_utf8(text@);
        }
        let mut s = String::new();
        push_head(&mut s, d, color);
        let ghost p1 = s@;
        push_loc(&mut s, self.name, line, col, g, color);
        let ghost p2 = s@;
        push_bar(&mut s, g, color);
        let ghost p3 = s@;
        push_src(&mut s, line, text, g, color);
        let ghost p4 = s@;
        push_carets(&mut s, col, carets, d.label.as_str(), g, color);
        let ghost p5 = s@;
        push_notes(&mut s, d, g, color);
        proof {
            let t = decode_utf8(b.subrange(line_starts(b)[line - 1] as int, line_end(b, line as int)));
            assert(s@ =~= head_text(d@, color) + loc_text(self.spec_name()@, line as nat, col as nat, g as int, color)
                + bar_text(g as int, color) + src_text(line as nat, t, g as int, color)
                + caret_text(col as nat, caret_count(b, d@), d@.label, g as int, color) + notes_text(d@.notes, g as int, color));
        }
        s
    }
}

fn push_head(s: &mut String, d: &Diagnostic, color: bool)
    ensures
        final(s)@ == old(s)@ + head_text(d@, color),
{
    let (red, bold, _blue, reset) = palette_exec(color);
    s.append(red);
    s.append("error[");
    s.append(d.code);
    s.append("]");
    s.append(reset);
    s.append(bold);
    s.append(": ");
    s.append(d.message.as_str());
    s.append(reset);
    push_char(s, '\n');
}

fn push_loc(s: &mut String, name: &str, line: usize, col: usize, g: usize, color: bool)
    ensures
        final(s)@ == old(s)@ + loc_text(name@, line as nat, col as nat, g as int, color),
{
    let (_red, _bold, blue, reset) = palette_exec(color);
    push_repeat(s, ' ', g);
    s.append(blue);
    s.append("-->");
    s.append(reset);
    s.append(" ");
    s.append(name);
    s.append(":");
    push_nat(s, line as u64);
    s.append(":");
    push_nat(s, col as u64);
    push_char(s, '\n');
}

fn push_bar(s: &mut String, g: usize, color: bool)
    ensures
        final(s)@ == old(s)@ + bar_text(g as int, color),
{
    let (_red, _bold, blue, reset) = palette_exec(color);
    push_repeat(s, ' ', g);
    s.append(" ");
    s.append(blue);
    s.append("|");
    s.append(reset);
    push_char(s, '\n');
}

fn push_src(s: &mut String, line: usize, text: &str, g: usize, color: bool)
    ensures
        final(s)@ == old(s)@ + src_text(line as nat, text@, g as int, color),
{
    let (_red, _bold, blue, reset) = palette_exec(color);
    s.append(blue);
    push_nat_padded(s, line as u64, g);
    s.append(" |");
    s.append(reset);
    s.append(" ");
    s.append(text);
    push_char(s, '\n');
}

fn push_marks(s: &mut String, col: usize, carets: usize, g: usize, color: bool)
    requires
        col >= 1,
    ensures
        final(s)@ == old(s)@ + marks_text(col as nat, carets as int, g as int, color),
{
    let (red, _bold, blue, reset) = palette_exec(color);
    push_repeat(s, ' ', g);
    s.append(" ");
    s.append(blue);
    s.append("|");
    s.append(reset);
    s.append(" ");
    push_repeat(s, ' ', col - 1);
    s.append(red);
    push_repeat(s, '^', carets);
    s.append(reset);
}

fn push_carets(s: &mut String, col: usize, carets: usize, label: &str, g: usize, color: bool)
    requires
        col >= 1,
    ensures
        final(s)@ == old(s)@ + caret_text(col as nat, carets as int, label@, g as int, color),
{
    push_marks(s, col, carets, g, color);
    let ghost mid = s@;
    let (red, _bold, _blue, reset) = palette_exec(color);
    if label.unicode_len() != 0 {
        s.append(" ");
        s.append(red);
        s.append(label);
        s.append(reset);
    }
    assert(s@ =~= mid + label_text(label@, color));
    push_char(s, '\n');
}

fn push_note(s: &mut String, n: &str, g: usize, color: bool)
    ensures
        final(s)@ == old(s)@ + note_text(n@, g as int, color),
{
    let (_red, bold, blue, reset) = palette_exec(color);
    push_repeat(s, ' ', g);
    s.append(" ");
    s.append(blue);
    s.append("=");
    s.append(reset);
    s.append(" ");
    s.append(bold);
    s.append("note");
    s.append(reset);
    s.append(": ");
    s.append(n);
    push_char(s, '\n');
}

fn push_notes(s: &mut String, d: &Diagnostic, g: usize, color: bool)
    ensures
        final(s)@ == old(s)@ + notes_text(d@.notes, g as int, color),
{
    let ghost p5 = s@;
    let ghost notes = d@.notes;
    let mut k: usize = 0;
    assert(notes.take(0) =~= Seq::<Seq<char>>::empty());
    while k < d.notes.len()
        invariant
            k <= d.notes@.len(),
            notes == d@.notes,
            notes.len() == d.notes@.len(),
            s@ == p5 + notes_text(notes.take(k as int), g as int, color),
        decreases d.notes@.len() - k,
    {
        push_note(s, d.notes[k].as_str(), g, color);
        proof {
            assert(notes.take(k + 1).drop_last() =~= notes.take(k as int));
            assert(notes.take(k + 1).last() == d.notes@[k as int]@);
            assert(s@ =~= p5 + notes_text(notes.take(k + 1), g as int, color));
        }
        k = k + 1;
    }
    assert(notes.take(notes.len() as int) =~= notes);
}

/// End of the text of line `line` after trimming trailing carriage returns.
pub open spec fn line_end(b: Seq<u8>, line: int) -> int {
    let starts = line_starts(b);
    let raw_end = if line < starts.len() { starts[line] - 1 } else { b.len() as int };
    trim_cr(b, starts[line - 1] as int, raw_end)
}

/// Moves `end` left over carriage returns, not past `start`.
pub open spec fn trim_cr(b: Seq<u8>, start: int, end: int) -> int
    decreases end - start,
{
    if end > start && b[end - 1] == 13u8 {
        trim_cr(b, start, end - 1)
    } else {
        end
    }
}

proof fn lemma_start_is_boundary(b: Seq<u8>, line: int)
    requires
        valid_utf8(b),
        b.len() <= usize::MAX,
        1 <= line <= line_starts(b).len(),
    ensures
        is_char_boundary(b, line_starts(b)[line - 1] as int),
{
    lemma_line_starts(b, b.len() as int);
    let s = line_starts(b)[line - 1] as int;
    if line > 1 {
        lemma_ascii_is_boundary(b, s - 1);
        lemma_boundary_after_ascii(b, s - 1);
    }
}

} // verus!
