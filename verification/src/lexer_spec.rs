//! The tokenization rules, stated over the characters of the source.
//!
//! A source is scanned one physical line at a time. Character positions index the whole
//! source; byte offsets and 1-based line/column numbers are derived from them.
use vstd::prelude::*;
use crate::diagnostics::{context_of, line_start_byte, ErrorKind, YamlError};
use crate::span::Span;
use crate::text::{byte_len, line_end_of, line_start_of, newline_count, unicode_alphanumeric, unicode_whitespace};

verus! {

#[derive(Clone, Copy, Debug, PartialEq, Eq)]
pub enum ScalarStyle {
    Plain,
    SingleQuoted,
    DoubleQuoted,
}

#[derive(Clone, Copy, Debug, PartialEq, Eq)]
pub enum BlockIndicator {
    Literal,
    Folded,
}

#[derive(Clone, Copy, Debug, PartialEq, Eq)]
pub enum Chomping {
    Clip,
    Keep,
    Strip,
}

/// The abstract value of a token kind: strings become character sequences.
pub enum SpecTokenKind {
    DocumentStart,
    DocumentEnd,
    MappingKey,
    SequenceEntry,
    Colon,
    Comma,
    LeftBrace,
    RightBrace,
    LeftBracket,
    RightBracket,
    Anchor(Seq<char>),
    Alias(Seq<char>),
    Tag(Seq<char>),
    Directive(Seq<char>),
    Scalar { raw: Seq<char>, style: ScalarStyle, tag: Option<Seq<char>> },
    BlockScalar {
        indicator: BlockIndicator,
        chomping: Chomping,
        indentation: Option<usize>,
        value: Seq<char>,
    },
    Comment(Seq<char>),
    BlankLine,
    Eof,
}

pub struct SpecToken {
    pub kind: SpecTokenKind,
    pub span: Span,
    pub indent: usize,
}

/// A lexing failure: character position, category and message.
pub struct SpecError {
    pub pos: int,
    pub kind: ErrorKind,
    pub message: Seq<char>,
}

pub open spec fn spec_error(pos: int, kind: ErrorKind, message: Seq<char>) -> SpecError {
    SpecError { pos, kind, message }
}

/// `e` is the error value the lexer produces for the abstract error `se` on source `s`.
pub open spec fn error_matches(e: YamlError, s: Seq<char>, se: SpecError) -> bool {
    &&& 0 <= se.pos <= s.len()
    &&& e.offset == byte_len(s.take(se.pos))
    &&& e.kind == se.kind
    &&& e.message@ == se.message
    &&& context_of(e.context, s, se.pos, e.offset as int)
}

/// The span between character positions `a` and `b`: byte offsets, and the 1-based line and
/// byte column of `a`.
#[verifier::opaque]
pub open spec fn span_of(s: Seq<char>, a: int, b: int) -> Span {
    Span {
        start: byte_len(s.take(a)) as usize,
        end: byte_len(s.take(b)) as usize,
        line: (newline_count(s.take(a)) + 1) as usize,
        column: (byte_len(s.take(a)) - line_start_byte(s, a) + 1) as usize,
    }
}

pub open spec fn tok(kind: SpecTokenKind, s: Seq<char>, a: int, b: int, indent: int) -> SpecToken {
    SpecToken { kind, span: span_of(s, a, b), indent: indent as usize }
}

/// End of the line content starting at `k` (a trailing `'\r'` is not content).
pub open spec fn content_end(s: Seq<char>, k: int) -> int {
    let le = line_end_of(s, k);
    if le > k && s[le - 1] == '\r' { le - 1 } else { le }
}

/// Start of the line after the one starting at `k` (or the end of the source).
pub open spec fn next_line(s: Seq<char>, k: int) -> int {
    let le = line_end_of(s, k);
    if le >= s.len() { s.len() as int } else { le + 1 }
}

/// First position in `[i, e)` that does not hold a space, or `e`.
pub open spec fn skip_spaces(s: Seq<char>, i: int, e: int) -> int
    decreases e - i,
{
    if i >= e {
        e
    } else if s[i] == ' ' {
        skip_spaces(s, i + 1, e)
    } else {
        i
    }
}

/// Whether position `k` is at the end of the line or holds whitespace.
pub open spec fn ws_or_end(s: Seq<char>, k: int, ce: int) -> bool {
    k >= ce || unicode_whitespace(s[k])
}

pub open spec fn is_flow(c: char) -> bool {
    c == '{' || c == '}' || c == '[' || c == ']' || c == ','
}

pub open spec fn punctuation_kind(c: char) -> SpecTokenKind {
    if c == '{' {
        SpecTokenKind::LeftBrace
    } else if c == '}' {
        SpecTokenKind::RightBrace
    } else if c == '[' {
        SpecTokenKind::LeftBracket
    } else if c == ']' {
        SpecTokenKind::RightBracket
    } else {
        SpecTokenKind::Comma
    }
}

pub open spec fn name_char(c: char) -> bool {
    unicode_alphanumeric(c) || c == '-' || c == '_' || c == ':' || c == '!'
}

/// End of the anchor/alias/tag name starting at `i`.
#[verifier::opaque]
pub open spec fn name_end(s: Seq<char>, i: int, ce: int) -> int
    decreases ce - i,
{
    if i >= ce {
        ce
    } else if name_char(s[i]) {
        name_end(s, i + 1, ce)
    } else {
        i
    }
}

/// First position in `[i, e)` not holding whitespace, or `e`.
#[verifier::opaque]
pub open spec fn skip_ws(s: Seq<char>, i: int, e: int) -> int
    decreases e - i,
{
    if i >= e {
        e
    } else if unicode_whitespace(s[i]) {
        skip_ws(s, i + 1, e)
    } else {
        i
    }
}

/// One past the last position in `[b, e)` not holding whitespace, or `b`.
#[verifier::opaque]
pub open spec fn trim_ws_end(s: Seq<char>, b: int, e: int) -> int
    decreases e - b,
{
    if e <= b {
        b
    } else if unicode_whitespace(s[e - 1]) {
        trim_ws_end(s, b, e - 1)
    } else {
        e
    }
}

/// Value of a hexadecimal digit.
pub open spec fn hex_digit_value(c: char) -> int {
    if '0' <= c <= '9' {
        c as int - '0' as int
    } else if 'a' <= c <= 'f' {
        c as int - 'a' as int + 10
    } else {
        c as int - 'A' as int + 10
    }
}

pub open spec fn is_hex_digit(c: char) -> bool {
    ('0' <= c <= '9') || ('a' <= c <= 'f') || ('A' <= c <= 'F')
}

pub open spec fn all_hex(d: Seq<char>) -> bool {
    forall|i: int| 0 <= i < d.len() ==> is_hex_digit(#[trigger] d[i])
}

pub open spec fn hex_value(d: Seq<char>) -> int
    decreases d.len(),
{
    if d.len() == 0 {
        0
    } else {
        hex_value(d.drop_last()) * 16 + hex_digit_value(d.last())
    }
}

/// What `from_str_radix(text, 16)` accepts: an optional `+` followed by hex digits.
pub open spec fn radix16(text: Seq<char>) -> Option<int> {
    let d = if text.len() > 1 && text[0] == '+' { text.drop_first() } else { text };
    if d.len() > 0 && all_hex(d) { Some(hex_value(d)) } else { None }
}

pub open spec fn valid_scalar_value(v: int) -> bool {
    0 <= v <= 0x10FFFF && !(0xD800 <= v <= 0xDFFF)
}

/// The character a simple escape `\c` stands for (`None` for `x`, `u` and the like).
pub open spec fn simple_escape(c: char) -> char {
    if c == 'n' {
        '\n'
    } else if c == 'r' {
        '\r'
    } else if c == 't' {
        '\t'
    } else if c == '0' {
        '\0'
    } else {
        c
    }
}

/// Scans the body of a quoted scalar from position `p`, with `acc` the value decoded so far.
/// On success yields the value and the position just past the closing quote.
#[verifier::opaque]
pub open spec fn quoted_from(s: Seq<char>, p: int, ce: int, quote: char, acc: Seq<char>) -> Result<(Seq<char>, int), SpecError>
    decreases ce - p,
{
    if p >= ce || p < 0 {
        Err(spec_error(p, ErrorKind::InvalidScalar, "unterminated quoted scalar"@))
    } else if s[p] == quote {
        if quote == '\'' && p + 1 < ce && s[p + 1] == '\'' {
            quoted_from(s, p + 2, ce, quote, acc.push('\''))
        } else {
            Ok((acc, p + 1))
        }
    } else if quote == '"' && s[p] == '\\' {
        if p + 1 >= ce {
            Err(spec_error(p, ErrorKind::InvalidScalar, "unterminated escape sequence"@))
        } else {
            let e = s[p + 1];
            if e == 'x' || e == 'X' {
                if p + 4 <= ce && radix16(s.subrange(p + 2, p + 4)) is Some {
                    quoted_from(s, p + 4, ce, quote, acc.push((radix16(s.subrange(p + 2, p + 4))->0) as char))
                } else {
                    Err(spec_error(p, ErrorKind::InvalidScalar, "invalid hexadecimal escape"@))
                }
            } else if e == 'u' || e == 'U' {
                let w: int = if e == 'u' { 4 } else { 8 };
                if p + 2 + w <= ce && radix16(s.subrange(p + 2, p + 2 + w)) is Some
                    && valid_scalar_value(radix16(s.subrange(p + 2, p + 2 + w))->0) {
                    quoted_from(s, p + 2 + w, ce, quote, acc.push((radix16(s.subrange(p + 2, p + 2 + w))->0) as char))
                } else {
                    Err(spec_error(p, ErrorKind::InvalidScalar, "invalid unicode escape"@))
                }
            } else {
                quoted_from(s, p + 2, ce, quote, acc.push(simple_escape(e)))
            }
        }
    } else {
        quoted_from(s, p + 1, ce, quote, acc.push(s[p]))
    }
}

/// Whether a plain scalar stops at position `i` of the line `[ls, ce)`.
pub open spec fn plain_stops(s: Seq<char>, ls: int, ce: int, i: int) -> bool {
    ||| (s[i] == '#' && (i == ls || unicode_whitespace(s[i - 1])))
    ||| is_flow(s[i])
    ||| (s[i] == ':' && ws_or_end(s, i + 1, ce))
}

/// Scans a plain scalar from position `i`; `ce_acc` is one past its last non-whitespace
/// character so far. Yields that end and the stop position.
#[verifier::opaque]
pub open spec fn plain_from(s: Seq<char>, ls: int, ce: int, i: int, ce_acc: int) -> (int, int)
    decreases ce - i,
{
    if i >= ce || i < 0 {
        (ce_acc, i)
    } else if plain_stops(s, ls, ce, i) {
        (ce_acc, i)
    } else {
        plain_from(s, ls, ce, i + 1, if unicode_whitespace(s[i]) { ce_acc } else { i + 1 })
    }
}

/// Parses a block scalar header from position `q`: chomping and explicit indentation.
pub open spec fn block_header(s: Seq<char>, q: int, ce: int, chomping: Chomping, explicit: Option<usize>) -> Result<(Chomping, Option<usize>), SpecError>
    decreases ce - q,
{
    if q >= ce || q < 0 {
        Ok((chomping, explicit))
    } else if s[q] == '+' {
        block_header(s, q + 1, ce, Chomping::Keep, explicit)
    } else if s[q] == '-' {
        block_header(s, q + 1, ce, Chomping::Strip, explicit)
    } else if '1' <= s[q] <= '9' {
        block_header(s, q + 1, ce, chomping, Some((s[q] as int - '0' as int) as usize))
    } else if s[q] == ' ' || s[q] == '\t' || s[q] == '#' {
        Ok((chomping, explicit))
    } else {
        Err(spec_error(q, ErrorKind::InvalidScalar, "invalid block scalar header"@))
    }
}

/// Collects the lines of a block scalar from position `cur`. `base` is the content
/// indentation once known. Yields the collected `(start, content end)` line ranges, the final
/// base indentation, and the position of the first line not collected.
pub open spec fn block_lines(s: Seq<char>, cur: int, indent: int, base: Option<int>, lines: Seq<(int, int)>) -> (Seq<(int, int)>, Option<int>, int)
    decreases s.len() - cur,
{
    if cur >= s.len() || cur < 0 {
        (lines, base, cur)
    } else {
        let ce = content_end(s, cur);
        let leading = skip_spaces(s, cur, ce) - cur;
        let blank = cur + leading == ce;
        if !blank && base is Some && leading < base->0 {
            (lines, base, cur)
        } else if !blank && base is None && leading <= indent {
            (lines, base, cur)
        } else if next_line(s, cur) <= cur {
            (lines, base, cur)
        } else {
            let nb = if !blank && base is None { Some(leading) } else { base };
            block_lines(s, next_line(s, cur), indent, nb, lines.push((cur, ce)))
        }
    }
}

/// The text of collected block lines with `bi` columns of indentation removed.
pub open spec fn block_text(s: Seq<char>, lines: Seq<(int, int)>, bi: int) -> Seq<char>
    decreases lines.len(),
{
    if lines.len() == 0 {
        Seq::empty()
    } else {
        let l = lines.last();
        block_text(s, lines.drop_last(), bi) + (if l.1 - l.0 <= bi {
            seq!['\n']
        } else {
            s.subrange(l.0 + bi, l.1).push('\n')
        })
    }
}

pub open spec fn trailing_newlines(v: Seq<char>) -> nat
    decreases v.len(),
{
    if v.len() > 0 && v.last() == '\n' { 1 + trailing_newlines(v.drop_last()) } else { 0 }
}

/// Applies a chomping indicator to a block scalar's text.
pub open spec fn chomp(v: Seq<char>, c: Chomping) -> Seq<char> {
    let t = trailing_newlines(v);
    match c {
        Chomping::Strip => v.take(v.len() - t),
        Chomping::Clip => if t > 1 { v.take(v.len() - t + 1) } else { v },
        Chomping::Keep => v,
    }
}

/// A block scalar introduced by `ch` at position `col` of the line starting at `ls`: the token
/// kind and the position of the first line after it.
#[verifier::opaque]
pub open spec fn block_scalar(s: Seq<char>, ch: char, ls: int, col: int, ce: int, indent: int) -> Result<(SpecTokenKind, int), SpecError> {
    match block_header(s, col + 1, ce, Chomping::Clip, None) {
        Err(e) => Err(e),
        Ok((chomping, explicit)) => {
            let base = match explicit { Some(n) => Some(indent + n), None => None };
            let r = block_lines(s, next_line(s, ls), indent, base, Seq::empty());
            let bi = match r.1 { Some(b) => b, None => indent + 1 };
            Ok((SpecTokenKind::BlockScalar {
                indicator: if ch == '|' { BlockIndicator::Literal } else { BlockIndicator::Folded },
                chomping,
                indentation: explicit,
                value: chomp(block_text(s, r.0, bi), chomping),
            }, r.2))
        },
    }
}

/// Whether the line `[ls, ce)` opens with a `---`/`...` marker at position `col`.
pub open spec fn marker_at(s: Seq<char>, ls: int, ce: int, col: int, m: char) -> bool {
    &&& col == ls
    &&& ls + 3 <= ce
    &&& s[ls] == m && s[ls + 1] == m && s[ls + 2] == m
    &&& ws_or_end(s, ls + 3, ce)
}

pub proof fn lemma_name_end_bounds(s: Seq<char>, i: int, ce: int)
    requires
        i <= ce,
    ensures
        i <= name_end(s, i, ce) <= ce,
    decreases ce - i,
{
    reveal(name_end);
    if i < ce && name_char(s[i]) {
        lemma_name_end_bounds(s, i + 1, ce);
    }
}

pub proof fn lemma_quoted_bounds(s: Seq<char>, p: int, ce: int, quote: char, acc: Seq<char>)
    ensures
        quoted_from(s, p, ce, quote, acc) matches Ok((_, e)) ==> p < e <= ce,
    decreases ce - p,
{
    reveal(quoted_from);
    if p >= ce || p < 0 {
    } else if s[p] == quote {
        if quote == '\'' && p + 1 < ce && s[p + 1] == '\'' {
            lemma_quoted_bounds(s, p + 2, ce, quote, acc.push('\''));
        }
    } else if quote == '"' && s[p] == '\\' {
        if p + 1 < ce {
            let e = s[p + 1];
            if e == 'x' || e == 'X' {
                if p + 4 <= ce && radix16(s.subrange(p + 2, p + 4)) is Some {
                    lemma_quoted_bounds(s, p + 4, ce, quote, acc.push((radix16(s.subrange(p + 2, p + 4))->0) as char));
                }
            } else if e == 'u' || e == 'U' {
                let w: int = if e == 'u' { 4 } else { 8 };
                if p + 2 + w <= ce && radix16(s.subrange(p + 2, p + 2 + w)) is Some
                    && valid_scalar_value(radix16(s.subrange(p + 2, p + 2 + w))->0) {
                    lemma_quoted_bounds(s, p + 2 + w, ce, quote, acc.push((radix16(s.subrange(p + 2, p + 2 + w))->0) as char));
                }
            } else {
                lemma_quoted_bounds(s, p + 2, ce, quote, acc.push(simple_escape(e)));
            }
        }
    } else {
        lemma_quoted_bounds(s, p + 1, ce, quote, acc.push(s[p]));
    }
}

pub proof fn lemma_plain_bounds(s: Seq<char>, ls: int, ce: int, i: int, ce_acc: int)
    requires
        0 <= i <= ce,
        ce_acc <= i,
    ensures
        plain_from(s, ls, ce, i, ce_acc).0 <= plain_from(s, ls, ce, i, ce_acc).1 <= ce,
        i <= plain_from(s, ls, ce, i, ce_acc).1,
        ce_acc <= plain_from(s, ls, ce, i, ce_acc).0,
    decreases ce - i,
{
    reveal(plain_from);
    if i < ce && !plain_stops(s, ls, ce, i) {
        lemma_plain_bounds(s, ls, ce, i + 1, if unicode_whitespace(s[i]) { ce_acc } else { i + 1 });
    }
}

/// Tokenizes the line `[ls, ce)` from position `col` on, after the tokens `acc`. Yields the
/// line's tokens and, when a block scalar swallowed further lines, where scanning resumes.
pub open spec fn scan_from(s: Seq<char>, ls: int, ce: int, indent: int, col: int, acc: Seq<SpecToken>) -> Result<(Seq<SpecToken>, Option<int>), SpecError>
    decreases ce - col,
{
    if col >= ce || col < 0 {
        Ok((acc, None))
    } else {
        let ch = s[col];
        if ch == ' ' {
            scan_from(s, ls, ce, indent, col + 1, acc)
        } else if ch == '\t' {
            Err(spec_error(col, ErrorKind::TabCharacter, "tabs are not allowed"@))
        } else if ch == '#' {
            let t = tok(SpecTokenKind::Comment(s.subrange(skip_ws(s, col + 1, ce), ce)), s, col, ce, indent);
            Ok((acc.push(t), None))
        } else if marker_at(s, ls, ce, col, '-') {
            scan_from(s, ls, ce, indent, ls + 3, acc.push(tok(SpecTokenKind::DocumentStart, s, ls, ls + 3, indent)))
        } else if marker_at(s, ls, ce, col, '.') {
            scan_from(s, ls, ce, indent, ls + 3, acc.push(tok(SpecTokenKind::DocumentEnd, s, ls, ls + 3, indent)))
        } else if ch == '-' && ws_or_end(s, col + 1, ce) {
            scan_from(s, ls, ce, indent, col + 1, acc.push(tok(SpecTokenKind::SequenceEntry, s, col, col + 1, indent)))
        } else if ch == '?' && ws_or_end(s, col + 1, ce) {
            scan_from(s, ls, ce, indent, col + 1, acc.push(tok(SpecTokenKind::MappingKey, s, col, col + 1, indent)))
        } else if ch == '&' || ch == '*' || ch == '!' {
            let e = name_end(s, col + 1, ce);
            proof { lemma_name_end_bounds(s, col + 1, ce); }
            if e <= col + 1 {
                Err(spec_error(col + 1, ErrorKind::InvalidAnchor, "expected anchor or alias name"@))
            } else {
                let name = s.subrange(col + 1, e);
                let kind = if ch == '&' {
                    SpecTokenKind::Anchor(name)
                } else if ch == '*' {
                    SpecTokenKind::Alias(name)
                } else {
                    SpecTokenKind::Tag(name)
                };
                scan_from(s, ls, ce, indent, e, acc.push(tok(kind, s, col, e, indent)))
            }
        } else if ch == '%' && col == ls {
            let t = tok(SpecTokenKind::Directive(s.subrange(ls + 1, trim_ws_end(s, ls + 1, ce))), s, ls, ce, indent);
            Ok((acc.push(t), None))
        } else if is_flow(ch) {
            scan_from(s, ls, ce, indent, col + 1, acc.push(tok(punctuation_kind(ch), s, col, col + 1, indent)))
        } else if ch == ':' && ws_or_end(s, col + 1, ce) {
            scan_from(s, ls, ce, indent, col + 1, acc.push(tok(SpecTokenKind::Colon, s, col, col + 1, indent)))
        } else if ch == '|' || ch == '>' {
            match block_scalar(s, ch, ls, col, ce, indent) {
                Err(e) => Err(e),
                Ok((kind, next)) => Ok((acc.push(tok(kind, s, col, next, indent)), Some(next))),
            }
        } else if ch == '\'' || ch == '"' {
            match quoted_from(s, col + 1, ce, ch, Seq::empty()) {
                Err(e) => Err(e),
                Ok((raw, end)) => {
                    proof { lemma_quoted_bounds(s, col + 1, ce, ch, Seq::empty()); }
                    let style = if ch == '\'' { ScalarStyle::SingleQuoted } else { ScalarStyle::DoubleQuoted };
                    let t = tok(SpecTokenKind::Scalar { raw, style, tag: None }, s, col, end, indent);
                    if end > col {
                        scan_from(s, ls, ce, indent, end, acc.push(t))
                    } else {
                        Ok((acc.push(t), None))
                    }
                },
            }
        } else {
            let (raw_end, end) = plain_from(s, ls, ce, col, col);
            proof { lemma_plain_bounds(s, ls, ce, col, col); }
            let t = tok(SpecTokenKind::Scalar { raw: s.subrange(col, raw_end), style: ScalarStyle::Plain, tag: None }, s, col, end, indent);
            if end > col {
                scan_from(s, ls, ce, indent, end, acc.push(t))
            } else {
                Ok((acc.push(t), None))
            }
        }
    }
}

/// Tokenizes the physical line starting at `ls`: its tokens and where the next line starts.
pub open spec fn scan_line(s: Seq<char>, ls: int) -> Result<(Seq<SpecToken>, int), SpecError> {
    let ce = content_end(s, ls);
    let j = skip_spaces(s, ls, ce);
    let indent = j - ls;
    if j < ce && s[j] == '\t' {
        Err(spec_error(j, ErrorKind::TabCharacter, "tabs are not allowed for indentation"@))
    } else if j == ce {
        Ok((seq![tok(SpecTokenKind::BlankLine, s, ls, ce, indent)], next_line(s, ls)))
    } else {
        match scan_from(s, ls, ce, indent, j, Seq::empty()) {
            Err(e) => Err(e),
            Ok((toks, jump)) => Ok((toks, match jump { Some(n) => n, None => next_line(s, ls) })),
        }
    }
}

/// The tokens of the source from the line starting at `ls` on, and the error that stops the
/// scan, if any. A clean scan ends with one `Eof` token.
pub open spec fn lex_from(s: Seq<char>, ls: int) -> (Seq<SpecToken>, Option<SpecError>)
    decreases s.len() - ls,
{
    if ls >= s.len() || ls < 0 {
        (seq![tok(SpecTokenKind::Eof, s, s.len() as int, s.len() as int, 0)], None)
    } else {
        match scan_line(s, ls) {
            Err(e) => (Seq::empty(), Some(e)),
            Ok((toks, next)) => if ls < next <= s.len() {
                let r = lex_from(s, next);
                (toks + r.0, r.1)
            } else {
                (toks, None)
            },
        }
    }
}

/// What `lex` yields for the whole source.
pub open spec fn lex_spec(s: Seq<char>) -> (Seq<SpecToken>, Option<SpecError>) {
    lex_from(s, 0)
}

} // verus!
