//! The token stream the document parser reads: lexer tokens with scalar styles in document
//! terms.
use vstd::prelude::*;
use crate::diagnostics::YamlError;
use crate::lexer_spec::error_matches;
use crate::lexer::{lex, tokens_view, Token, TokenKind};
use crate::lexer_spec::{lex_spec, BlockIndicator, SpecToken, SpecTokenKind};
use crate::lexer_spans::{lemma_lex_spans, span_at, span_in};
use crate::node::{convert_scalar_style, style_of, ScalarStyle};
use crate::span::Span;
use crate::text::byte_len;

verus! {

#[derive(Clone, Debug, PartialEq, Eq)]
pub enum ParserToken {
    DocumentStart,
    DocumentEnd,
    MappingKey,
    SequenceEntry,
    Colon,
    Comma,
    LeftBrace,
    RightBrace,
    LeftBracket,
    RightBracket,
    Anchor(String),
    Alias(String),
    Tag(String),
    Directive(String),
    Scalar { raw: String, style: ScalarStyle, tag: Option<String> },
    BlockScalar { indicator: BlockIndicator, value: String },
    Comment(String),
    BlankLine,
    Eof,
}

#[derive(Clone, Debug, PartialEq, Eq)]
pub struct TokenWithSpan {
    pub token: ParserToken,
    pub span: Span,
}

pub open spec fn opt_text(t: Option<String>) -> Option<Seq<char>> {
    match t {
        Some(s) => Some(s@),
        None => None,
    }
}

/// `p` is the parser's form of the lexer token `t`.
pub open spec fn token_converts(p: TokenWithSpan, t: SpecToken) -> bool {
    &&& p.span == t.span
    &&& match (p.token, t.kind) {
        (ParserToken::DocumentStart, SpecTokenKind::DocumentStart) => true,
        (ParserToken::DocumentEnd, SpecTokenKind::DocumentEnd) => true,
        (ParserToken::MappingKey, SpecTokenKind::MappingKey) => true,
        (ParserToken::SequenceEntry, SpecTokenKind::SequenceEntry) => true,
        (ParserToken::Colon, SpecTokenKind::Colon) => true,
        (ParserToken::Comma, SpecTokenKind::Comma) => true,
        (ParserToken::LeftBrace, SpecTokenKind::LeftBrace) => true,
        (ParserToken::RightBrace, SpecTokenKind::RightBrace) => true,
        (ParserToken::LeftBracket, SpecTokenKind::LeftBracket) => true,
        (ParserToken::RightBracket, SpecTokenKind::RightBracket) => true,
        (ParserToken::Anchor(a), SpecTokenKind::Anchor(b)) => a@ == b,
        (ParserToken::Alias(a), SpecTokenKind::Alias(b)) => a@ == b,
        (ParserToken::Tag(a), SpecTokenKind::Tag(b)) => a@ == b,
        (ParserToken::Directive(a), SpecTokenKind::Directive(b)) => a@ == b,
        (
            ParserToken::Scalar { raw, style, tag },
            SpecTokenKind::Scalar { raw: raw2, style: style2, tag: tag2 },
        ) => raw@ == raw2 && style == style_of(style2) && opt_text(tag) == tag2,
        (
            ParserToken::BlockScalar { indicator, value },
            SpecTokenKind::BlockScalar { indicator: indicator2, value: value2, .. },
        ) => indicator == indicator2 && value@ == value2,
        (ParserToken::Comment(a), SpecTokenKind::Comment(b)) => a@ == b,
        (ParserToken::BlankLine, SpecTokenKind::BlankLine) => true,
        (ParserToken::Eof, SpecTokenKind::Eof) => true,
        _ => false,
    }
}

fn copy_tag(tag: &Option<String>) -> (r: Option<String>)
    ensures
        opt_text(r) == opt_text(*tag),
{
    match tag {
        Some(t) => Some(t.clone()),
        None => None,
    }
}

/// The parser's form of one lexer token.
pub fn convert_token(lt: &Token) -> (r: TokenWithSpan)
    ensures
        token_converts(r, lt@),
{
    let token = match &lt.kind {
        TokenKind::DocumentStart => ParserToken::DocumentStart,
        TokenKind::DocumentEnd => ParserToken::DocumentEnd,
        TokenKind::MappingKey => ParserToken::MappingKey,
        TokenKind::SequenceEntry => ParserToken::SequenceEntry,
        TokenKind::Colon => ParserToken::Colon,
        TokenKind::Comma => ParserToken::Comma,
        TokenKind::LeftBrace => ParserToken::LeftBrace,
        TokenKind::RightBrace => ParserToken::RightBrace,
        TokenKind::LeftBracket => ParserToken::LeftBracket,
        TokenKind::RightBracket => ParserToken::RightBracket,
        TokenKind::Anchor(name) => ParserToken::Anchor(name.clone()),
        TokenKind::Alias(name) => ParserToken::Alias(name.clone()),
        TokenKind::Tag(name) => ParserToken::Tag(name.clone()),
        TokenKind::Directive(name) => ParserToken::Directive(name.clone()),
        TokenKind::Scalar { raw, style, tag } => ParserToken::Scalar {
            raw: raw.clone(),
            style: convert_scalar_style(*style),
            tag: copy_tag(tag),
        },
        TokenKind::BlockScalar { indicator, value, .. } => ParserToken::BlockScalar {
            indicator: *indicator,
            value: value.clone(),
        },
        TokenKind::Comment(text) => ParserToken::Comment(text.clone()),
        TokenKind::BlankLine => ParserToken::BlankLine,
        TokenKind::Eof => ParserToken::Eof,
    };
    TokenWithSpan { token, span: lt.span }
}

/// Lexes `source` and converts every token to the parser's form.
pub fn lex_to_parser_tokens(source: &str) -> (r: Result<Vec<TokenWithSpan>, YamlError>)
    requires
        byte_len(source@) <= isize::MAX,
    ensures
        match r {
            Ok(v) => lex_spec(source@).1 is None && v@.len() == lex_spec(source@).0.len() && (forall|
                i: int,
            |
                0 <= i < v@.len() ==> token_converts(#[trigger] v@[i], lex_spec(source@).0[i])) && (forall|
                i: int,
            |
                0 <= i < v@.len() ==> span_in(source@, (#[trigger] v@[i]).span) && span_at(source@, v@[i].span)) && forall|i: int, j: int|
                0 <= i < j < v@.len() ==> (#[trigger] v@[i]).span.start <= (#[trigger] v@[j]).span.start,
            Err(e) => lex_spec(source@).1 is Some && error_matches(e, source@, lex_spec(source@).1->0),
        },
{
    let lexer_tokens = match lex(source) {
        Ok(v) => v,
        Err(e) => {
            return Err(e);
        },
    };
    let ghost spec_tokens = lex_spec(source@).0;
    let mut out: Vec<TokenWithSpan> = Vec::new();
    let mut i: usize = 0;
    while i < lexer_tokens.len()
        invariant
            tokens_view(lexer_tokens@) == spec_tokens,
            i <= lexer_tokens@.len(),
            out@.len() == i,
            forall|k: int| 0 <= k < i ==> token_converts(#[trigger] out@[k], spec_tokens[k]),
        decreases lexer_tokens@.len() - i,
    {
        let lt = &lexer_tokens[i];
        assert(spec_tokens[i as int] == lt@);
        let tws = convert_token(lt);
        out.push(tws);
        i = i + 1;
    }
    proof {
        lemma_lex_spans(source@);
        assert forall|k: int| 0 <= k < out@.len() implies span_in(source@, (#[trigger] out@[k]).span) && span_at(source@, out@[k].span) by {
            assert(token_converts(out@[k], spec_tokens[k]));
        }
        assert forall|k: int, m: int| 0 <= k < m < out@.len() implies (#[trigger] out@[k]).span.start <= (#[trigger] out@[m]).span.start by {
            assert(token_converts(out@[k], spec_tokens[k]));
            assert(token_converts(out@[m], spec_tokens[m]));
            assert(spec_tokens[k].span.start <= spec_tokens[m].span.start);
        }
    }
    Ok(out)
}

} // verus!
