//! A pull-based tokenizer.
//!
//! [`Lexer::next_token`] hands out one token at a time and only ever buffers a single physical
//! line's worth of tokens; [`Lexer::lex`] drains it into a `Vec`.
use vstd::prelude::*;
use crate::diagnostics::{context_at, YamlError, ErrorKind};
use crate::lexer_scan::{
    chomp_exec, block_text_exec, content_end_exec, fail, name_end_exec, next_line_exec,
    read_block_header, read_block_lines, read_plain, read_quoted, skip_spaces_exec, skip_ws_exec,
    trim_ws_end_exec, ws_or_end_exec, LexFail,
};
pub use crate::lexer_spec::{BlockIndicator, Chomping, ScalarStyle};
use crate::lexer_spec::{
    error_matches, lex_from, lex_spec, scan_from, scan_line, span_of, SpecError, SpecToken,
    SpecTokenKind,
};
use crate::span::Span;
use crate::text::{
    byte_len, byte_offsets, chars_of, count_newlines, find_line_start, lemma_byte_len_mono,
    lemma_len_le_byte_len, lemma_line_start_bounds, string_from_chars,
};

verus! {

#[derive(Clone, Debug, PartialEq, Eq)]
pub enum TokenKind {
    DocumentStart,
    DocumentEnd,
    MappingKey,
    SequenceEntry,
    Colon,
    Comma,
    LeftBrace,
    RightBrace,
    LeftBracket,
    RightBracket,
    Anchor(String),
    Alias(String),
    Tag(String),
    Directive(String),
    Scalar { raw: String, style: ScalarStyle, tag: Option<String> },
    BlockScalar { indicator: BlockIndicator, chomping: Chomping, indentation: Option<usize>, value: String },
    Comment(String),
    BlankLine,
    Eof,
}

impl View for TokenKind {
    type V = SpecTokenKind;

    open spec fn view(&self) -> SpecTokenKind {
        match self {
            TokenKind::DocumentStart => SpecTokenKind::DocumentStart,
            TokenKind::DocumentEnd => SpecTokenKind::DocumentEnd,
            TokenKind::MappingKey => SpecTokenKind::MappingKey,
            TokenKind::SequenceEntry => SpecTokenKind::SequenceEntry,
            TokenKind::Colon => SpecTokenKind::Colon,
            TokenKind::Comma => SpecTokenKind::Comma,
            TokenKind::LeftBrace => SpecTokenKind::LeftBrace,
            TokenKind::RightBrace => SpecTokenKind::RightBrace,
            TokenKind::LeftBracket => SpecTokenKind::LeftBracket,
            TokenKind::RightBracket => SpecTokenKind::RightBracket,
            TokenKind::Anchor(n) => SpecTokenKind::Anchor(n@),
            TokenKind::Alias(n) => SpecTokenKind::Alias(n@),
            TokenKind::Tag(n) => SpecTokenKind::Tag(n@),
            TokenKind::Directive(n) => SpecTokenKind::Directive(n@),
            TokenKind::Scalar { raw, style, tag } => SpecTokenKind::Scalar {
                raw: raw@,
                style: *style,
                tag: match tag { Some(t) => Some(t@), None => None },
            },
            TokenKind::BlockScalar { indicator, chomping, indentation, value } => SpecTokenKind::BlockScalar {
                indicator: *indicator,
                chomping: *chomping,
                indentation: *indentation,
                value: value@,
            },
            TokenKind::Comment(t) => SpecTokenKind::Comment(t@),
            TokenKind::BlankLine => SpecTokenKind::BlankLine,
            TokenKind::Eof => SpecTokenKind::Eof,
        }
    }
}

#[derive(Clone, Debug, PartialEq, Eq)]
pub struct Token {
    pub kind: TokenKind,
    pub span: Span,
    pub indent: usize,
}

impl View for Token {
    type V = SpecToken;

    open spec fn view(&self) -> SpecToken {
        SpecToken { kind: self.kind@, span: self.span, indent: self.indent }
    }
}

pub open spec fn tokens_view(v: Seq<Token>) -> Seq<SpecToken> {
    v.map_values(|t: Token| t@)
}

fn push_token(toks: &mut Vec<Token>, t: Token)
    ensures
        tokens_view(final(toks)@) == tokens_view(old(toks)@).push(t@),
{
    toks.push(t);
    assert(tokens_view(final(toks)@) =~= tokens_view(old(toks)@).push(t@));
}

fn string_of(s: &Vec<char>, a: usize, b: usize) -> (r: String)
    requires
        a <= b <= s@.len(),
    ensures
        r@ == s@.subrange(a as int, b as int),
{
    string_from_chars(vstd::slice::slice_subrange(s.as_slice(), a, b))
}

fn punctuation(ch: char) -> (k: Option<TokenKind>)
    ensures
        k is Some <==> crate::lexer_spec::is_flow(ch),
        k matches Some(kind) ==> kind@ == crate::lexer_spec::punctuation_kind(ch),
{
    if ch == '{' {
        Some(TokenKind::LeftBrace)
    } else if ch == '}' {
        Some(TokenKind::RightBrace)
    } else if ch == '[' {
        Some(TokenKind::LeftBracket)
    } else if ch == ']' {
        Some(TokenKind::RightBracket)
    } else if ch == ',' {
        Some(TokenKind::Comma)
    } else {
        None
    }
}

/// A pull-based tokenizer over one source text.
pub struct Lexer {
    chars: Vec<char>,
    /// Byte offset of every character position.
    offs: Vec<usize>,
    /// Character position of the next physical line to scan.
    line_start: usize,
    /// Tokens produced for one physical line but not yet handed out, in order.
    queue: Vec<Token>,
    /// Set once the final `Eof` token has been handed out.
    eof_done: bool,
}

impl Lexer {
    /// The characters of the source being tokenized.
    pub closed spec fn source(&self) -> Seq<char> {
        self.chars@
    }

    pub closed spec fn wf(&self) -> bool {
        &&& self.offs@.len() == self.chars@.len() + 1
        &&& forall|i: int| 0 <= i <= self.chars@.len() ==> #[trigger] self.offs@[i] == byte_len(self.chars@.take(i))
        &&& byte_len(self.chars@) <= isize::MAX
        &&& self.chars@.len() <= isize::MAX
        &&& self.line_start <= self.chars@.len()
    }

    /// The tokens still to be handed out, and the error that ends them, if any.
    pub closed spec fn remaining(&self) -> (Seq<SpecToken>, Option<SpecError>) {
        let rest = if self.eof_done {
            (Seq::<SpecToken>::empty(), None::<SpecError>)
        } else {
            lex_from(self.chars@, self.line_start as int)
        };
        (tokens_view(self.queue@) + rest.0, rest.1)
    }

    /// A lexer positioned at the start of `source`.
    pub fn new(source: &str) -> (l: Self)
        requires
            byte_len(source@) <= isize::MAX,
        ensures
            l.wf(),
            l.source() == source@,
            l.remaining() == lex_spec(source@),
    {
        let chars = chars_of(source);
        let offs = byte_offsets(source, &chars);
        proof {
            lemma_len_le_byte_len(source@);
        }
        let l = Lexer { chars, offs, line_start: 0, queue: Vec::new(), eof_done: false };
        assert(tokens_view(l.queue@) =~= Seq::<SpecToken>::empty());
        assert(l.remaining().0 =~= lex_spec(source@).0);
        l
    }

    fn span(&self, a: usize, b: usize) -> (sp: Span)
        requires
            self.wf(),
            a <= self.chars@.len(),
            b <= self.chars@.len(),
        ensures
            sp == span_of(self.chars@, a as int, b as int),
    {
        reveal(span_of);
        let ls = find_line_start(&self.chars, a);
        proof {
            lemma_line_start_bounds(self.chars@, a as int);
            lemma_byte_len_mono(self.chars@, ls as int, a as int);
            lemma_byte_len_mono(self.chars@, a as int, self.chars@.len() as int);
            assert(self.chars@.take(self.chars@.len() as int) =~= self.chars@);
        }
        let line = count_newlines(&self.chars, a) + 1;
        let column = self.offs[a] - self.offs[ls] + 1;
        Span { start: self.offs[a], end: self.offs[b], line, column }
    }

    fn error_of(&self, f: LexFail) -> (e: YamlError)
        requires
            self.wf(),
            f.pos <= self.chars@.len(),
        ensures
            error_matches(e, self.chars@, f@),
    {
        proof {
            lemma_byte_len_mono(self.chars@, f.pos as int, self.chars@.len() as int);
            assert(self.chars@.take(self.chars@.len() as int) =~= self.chars@);
        }
        let offset = self.offs[f.pos];
        let ctx = context_at(&self.chars, &self.offs, f.pos, offset);
        YamlError { offset, kind: f.kind, message: f.message.to_owned(), context: ctx }
    }

    fn tok(&self, kind: TokenKind, a: usize, b: usize, indent: usize) -> (t: Token)
        requires
            self.wf(),
            a <= self.chars@.len(),
            b <= self.chars@.len(),
        ensures
            t@ == crate::lexer_spec::tok(kind@, self.chars@, a as int, b as int, indent as int),
    {
        Token { kind, span: self.span(a, b), indent }
    }

    /// Scans the physical line at `line_start`: its tokens and the start of the next line to
    /// scan.
    #[verifier::rlimit(100)]
    #[verifier::spinoff_prover]
    fn scan_line(&self) -> (r: Result<(Vec<Token>, usize), YamlError>)
        requires
            self.wf(),
            self.line_start < self.chars@.len(),
        ensures
            match r {
                Ok((v, nx)) => scan_line(self.chars@, self.line_start as int)
                    == Ok::<(Seq<SpecToken>, int), SpecError>((tokens_view(v@), nx as int))
                    && self.line_start < nx <= self.chars@.len(),
                Err(e) => scan_line(self.chars@, self.line_start as int) matches Err(se)
                    && error_matches(e, self.chars@, se),
            },
    {
        let s = &self.chars;
        let ls = self.line_start;
        let ce = content_end_exec(s, ls);
        let j = skip_spaces_exec(s, ls, ce);
        let indent = j - ls;
        if j < ce && s[j] == '\t' {
            return Err(self.error_of(fail(j, ErrorKind::TabCharacter, "tabs are not allowed for indentation")));
        }
        let nl = next_line_exec(s, ls);
        if j == ce {
            let mut v: Vec<Token> = Vec::new();
            push_token(&mut v, self.tok(TokenKind::BlankLine, ls, ce, indent));
            assert(tokens_view(v@) =~= seq![crate::lexer_spec::tok(SpecTokenKind::BlankLine, s@, ls as int, ce as int, indent as int)]);
            return Ok((v, nl));
        }
        let mut toks: Vec<Token> = Vec::new();
        let mut col = j;
        assert(tokens_view(toks@) =~= Seq::<SpecToken>::empty());
        loop
            invariant
                self.wf(),
                s == &self.chars,
                ls == self.line_start,
                ls <= j <= col <= ce <= s@.len(),
                ls < nl <= s@.len(),
                nl == crate::lexer_spec::next_line(s@, ls as int),
                ce == crate::lexer_spec::content_end(s@, ls as int),
                indent == j - ls,
                j == crate::lexer_spec::skip_spaces(s@, ls as int, ce as int),
                j < ce,
                !(s@[j as int] == '\t'),
                scan_from(s@, ls as int, ce as int, indent as int, col as int, tokens_view(toks@))
                    == scan_from(s@, ls as int, ce as int, indent as int, j as int, Seq::empty()),
            decreases ce - col,
        {
            if col >= ce {
                return Ok((toks, nl));
            }
            let ch = s[col];
            if ch == ' ' {
                col = col + 1;
                continue;
            }
            if ch == '\t' {
                return Err(self.error_of(fail(col, ErrorKind::TabCharacter, "tabs are not allowed")));
            }
            if ch == '#' {
                let b = skip_ws_exec(s, col + 1, ce);
                let t = self.tok(TokenKind::Comment(string_of(s, b, ce)), col, ce, indent);
                push_token(&mut toks, t);
                return Ok((toks, nl));
            }
            if col == ls && ls + 3 <= ce && ((s[ls] == '-' && s[ls + 1] == '-' && s[ls + 2] == '-')
                || (s[ls] == '.' && s[ls + 1] == '.' && s[ls + 2] == '.')) && ws_or_end_exec(s, ls + 3, ce) {
                let kind = if s[ls] == '-' { TokenKind::DocumentStart } else { TokenKind::DocumentEnd };
                let t = self.tok(kind, ls, ls + 3, indent);
                push_token(&mut toks, t);
                col = ls + 3;
                continue;
            }
            if (ch == '-' || ch == '?') && ws_or_end_exec(s, col + 1, ce) {
                let kind = if ch == '-' { TokenKind::SequenceEntry } else { TokenKind::MappingKey };
                let t = self.tok(kind, col, col + 1, indent);
                push_token(&mut toks, t);
                col = col + 1;
                continue;
            }
            if ch == '&' || ch == '*' || ch == '!' {
                let e = name_end_exec(s, col + 1, ce);
                if e == col + 1 {
                    return Err(self.error_of(fail(col + 1, ErrorKind::InvalidAnchor, "expected anchor or alias name")));
                }
                let name = string_of(s, col + 1, e);
                let kind = if ch == '&' {
                    TokenKind::Anchor(name)
                } else if ch == '*' {
                    TokenKind::Alias(name)
                } else {
                    TokenKind::Tag(name)
                };
                let t = self.tok(kind, col, e, indent);
                push_token(&mut toks, t);
                col = e;
                continue;
            }
            if ch == '%' && col == ls {
                let e = trim_ws_end_exec(s, ls + 1, ce);
                let t = self.tok(TokenKind::Directive(string_of(s, ls + 1, e)), ls, ce, indent);
                push_token(&mut toks, t);
                return Ok((toks, nl));
            }
            match punctuation(ch) {
                Some(kind) => {
                    let t = self.tok(kind, col, col + 1, indent);
                    push_token(&mut toks, t);
                    col = col + 1;
                    continue;
                }
                None => {}
            }
            if ch == ':' && ws_or_end_exec(s, col + 1, ce) {
                let t = self.tok(TokenKind::Colon, col, col + 1, indent);
                push_token(&mut toks, t);
                col = col + 1;
                continue;
            }
            if ch == '|' || ch == '>' {
                let (chomping, explicit) = match read_block_header(s, col + 1, ce) {
                    Ok(h) => h,
                    Err(f) => {
                        proof { reveal(crate::lexer_spec::block_scalar); }
                        return Err(self.error_of(f));
                    }
                };
                let base = match explicit {
                    Some(n) => Some(indent + n),
                    None => None,
                };
                let (lines, final_base, next) = read_block_lines(s, nl, indent, base);
                let bi = match final_base {
                    Some(b) => b,
                    None => indent + 1,
                };
                let mut value = block_text_exec(s, &lines, bi);
                chomp_exec(&mut value, chomping);
                let indicator = if ch == '|' { BlockIndicator::Literal } else { BlockIndicator::Folded };
                let kind = TokenKind::BlockScalar {
                    indicator,
                    chomping,
                    indentation: explicit,
                    value: string_from_chars(value.as_slice()),
                };
                let t = self.tok(kind, col, next, indent);
                proof { reveal(crate::lexer_spec::block_scalar); }
                push_token(&mut toks, t);
                return Ok((toks, next));
            }
            if ch == '\'' || ch == '"' {
                match read_quoted(s, col + 1, ce, ch) {
                    Ok((raw, end)) => {
                        proof { crate::lexer_spec::lemma_quoted_bounds(s@, col + 1, ce as int, ch, Seq::empty()); }
                        let style = if ch == '\'' { ScalarStyle::SingleQuoted } else { ScalarStyle::DoubleQuoted };
                        let kind = TokenKind::Scalar { raw: string_from_chars(raw.as_slice()), style, tag: None };
                        let t = self.tok(kind, col, end, indent);
                        push_token(&mut toks, t);
                        col = end;
                        continue;
                    }
                    Err(f) => {
                        return Err(self.error_of(f));
                    }
                }
            }
            let (raw_end, end) = read_plain(s, ls, ce, col);
            let kind = TokenKind::Scalar { raw: string_of(s, col, raw_end), style: ScalarStyle::Plain, tag: None };
            let t = self.tok(kind, col, end, indent);
            push_token(&mut toks, t);
            if end == col {
                return Ok((toks, nl));
            }
            col = end;
        }
    }

    /// Pulls the next token, or `None` once the final `Eof` token has been returned.
    pub fn next_token(&mut self) -> (r: Result<Option<Token>, YamlError>)
        requires
            old(self).wf(),
        ensures
            final(self).wf(),
            final(self).source() == old(self).source(),
            old(self).remaining().0.len() > 0 ==> (r matches Ok(Some(tk)) && tk@ == old(self).remaining().0[0]
                && final(self).remaining() == (old(self).remaining().0.drop_first(), old(self).remaining().1)),
            r matches Ok(Some(_)) ==> old(self).remaining().0.len() > 0,
            r matches Ok(None) ==> (old(self).remaining().0.len() == 0 && old(self).remaining().1 is None
                && final(self).remaining() == old(self).remaining()),
            r matches Err(err) ==> (old(self).remaining().0.len() == 0 && old(self).remaining().1 is Some
                && error_matches(err, old(self).source(), old(self).remaining().1->0)
                && final(self).remaining() == old(self).remaining()),
    {
        loop
            invariant
                self.wf(),
                self.chars@ == old(self).chars@,
                self.remaining() == old(self).remaining(),
            decreases self.chars@.len() - self.line_start, if self.eof_done { 0int } else { 1int },
        {
            if self.queue.len() > 0 {
                let ghost q0 = self.queue@;
                let t = self.queue.remove(0);
                proof {
                    assert(self.queue@ =~= q0.drop_first());
                    assert(tokens_view(self.queue@) =~= tokens_view(q0).drop_first());
                }
                return Ok(Some(t));
            }
            if self.eof_done {
                return Ok(None);
            }
            let n = self.chars.len();
            if self.line_start >= n {
                let t = self.tok(TokenKind::Eof, n, n, 0);
                self.eof_done = true;
                return Ok(Some(t));
            }
            match self.scan_line() {
                Err(e) => {
                    return Err(e);
                }
                Ok((toks, nx)) => {
                    self.queue = toks;
                    self.line_start = nx;
                }
            }
        }
    }

    /// Tokenizes the whole rest of the source: equivalent to draining [`Lexer::next_token`].
    #[verifier::rlimit(100)]
    pub fn lex(self) -> (r: Result<Vec<Token>, YamlError>)
        requires
            self.wf(),
        ensures
            match r {
                Ok(v) => self.remaining().1 is None && tokens_view(v@) == self.remaining().0,
                Err(e) => self.remaining().1 is Some && error_matches(e, self.source(), self.remaining().1->0),
            },
    {
        let ghost orig = self.remaining();
        let ghost src = self.source();
        let mut lexer = self;
        let mut tokens: Vec<Token> = Vec::new();
        assert(tokens_view(tokens@) + lexer.remaining().0 =~= orig.0);
        #[verifier::loop_isolation(false)]
        loop
            invariant
                lexer.wf(),
                lexer.source() == src,
                tokens_view(tokens@) + lexer.remaining().0 == orig.0,
                lexer.remaining().1 == orig.1,
            decreases lexer.remaining().0.len(),
        {
            match lexer.next_token() {
                Ok(Some(t)) => {
                    let ghost before = tokens_view(tokens@);
                    push_token(&mut tokens, t);
                    assert(tokens_view(tokens@) + lexer.remaining().0 =~= orig.0);
                }
                Ok(None) => {
                    assert(tokens_view(tokens@) =~= orig.0);
                    return Ok(tokens);
                }
                Err(e) => {
                    return Err(e);
                }
            }
        }
    }
}

/// Tokenizes `source` at once.
pub fn lex(source: &str) -> (r: Result<Vec<Token>, YamlError>)
    requires
        byte_len(source@) <= isize::MAX,
    ensures
        match r {
            Ok(v) => lex_spec(source@).1 is None && tokens_view(v@) == lex_spec(source@).0,
            Err(e) => lex_spec(source@).1 is Some && error_matches(e, source@, lex_spec(source@).1->0),
        },
{
    Lexer::new(source).lex()
}

} // verus!
