//! The recursive-descent parser that builds a document arena from the token stream: block and
//! flow collections, anchors and aliases, tags, `<<` merge keys, directives and multi-document
//! streams.
use vstd::prelude::*;
use crate::diagnostics::{on_boundary, ErrorKind, YamlError};
use crate::document::{arena_ok, refs_below, Document, NodeData, NodeKind, Scalar};
use crate::lexer_spec::BlockIndicator;
use crate::lexer_spans::{lemma_origin_at, lemma_zero_on_boundary, positions_ok, span_at, span_in, spans_ok};
use crate::node::{NodeId, ParserOptions, ScalarStyle, ScalarValue, Trivia, TriviaKind};
use crate::parser_tokens::{lex_to_parser_tokens, opt_text, ParserToken, TokenWithSpan};
use crate::resolve::resolve_scalar;
use crate::resolve_spec::resolve_model;
use crate::span::Span;
use crate::text::{byte_len, chars_of, is_whitespace, same_text, string_from_chars, trim_chars};
use crate::version::{version_named, YamlVersion};

verus! {

/// Answers the one question of scalar typing that depends on double arithmetic: whether a
/// trimmed plain scalar reads as a YAML 1.1 sexagesimal float such as `190:20:30.15`.
pub trait SexagesimalFloats {
    fn is_sexagesimal_float(&self, text: &str) -> bool;
}

/// A copy of a token's variant, for lookahead decisions.
#[derive(Clone, Copy, Debug, PartialEq, Eq, Structural)]
pub enum Class {
    DocumentStart,
    DocumentEnd,
    MappingKey,
    SequenceEntry,
    Colon,
    Comma,
    LeftBrace,
    RightBrace,
    LeftBracket,
    RightBracket,
    Anchor,
    Alias,
    Tag,
    Directive,
    Scalar,
    BlockScalar,
    Comment,
    BlankLine,
    Eof,
}

pub open spec fn class_spec(t: ParserToken) -> Class {
    match t {
        ParserToken::DocumentStart => Class::DocumentStart,
        ParserToken::DocumentEnd => Class::DocumentEnd,
        ParserToken::MappingKey => Class::MappingKey,
        ParserToken::SequenceEntry => Class::SequenceEntry,
        ParserToken::Colon => Class::Colon,
        ParserToken::Comma => Class::Comma,
        ParserToken::LeftBrace => Class::LeftBrace,
        ParserToken::RightBrace => Class::RightBrace,
        ParserToken::LeftBracket => Class::LeftBracket,
        ParserToken::RightBracket => Class::RightBracket,
        ParserToken::Anchor(_) => Class::Anchor,
        ParserToken::Alias(_) => Class::Alias,
        ParserToken::Tag(_) => Class::Tag,
        ParserToken::Directive(_) => Class::Directive,
        ParserToken::Scalar { .. } => Class::Scalar,
        ParserToken::BlockScalar { .. } => Class::BlockScalar,
        ParserToken::Comment(_) => Class::Comment,
        ParserToken::BlankLine => Class::BlankLine,
        ParserToken::Eof => Class::Eof,
    }
}

pub fn class_of(t: &ParserToken) -> (c: Class)
    ensures
        c == class_spec(*t),
{
    match t {
        ParserToken::DocumentStart => Class::DocumentStart,
        ParserToken::DocumentEnd => Class::DocumentEnd,
        ParserToken::MappingKey => Class::MappingKey,
        ParserToken::SequenceEntry => Class::SequenceEntry,
        ParserToken::Colon => Class::Colon,
        ParserToken::Comma => Class::Comma,
        ParserToken::LeftBrace => Class::LeftBrace,
        ParserToken::RightBrace => Class::RightBrace,
        ParserToken::LeftBracket => Class::LeftBracket,
        ParserToken::RightBracket => Class::RightBracket,
        ParserToken::Anchor(_) => Class::Anchor,
        ParserToken::Alias(_) => Class::Alias,
        ParserToken::Tag(_) => Class::Tag,
        ParserToken::Directive(_) => Class::Directive,
        ParserToken::Scalar { .. } => Class::Scalar,
        ParserToken::BlockScalar { .. } => Class::BlockScalar,
        ParserToken::Comment(_) => Class::Comment,
        ParserToken::BlankLine => Class::BlankLine,
        ParserToken::Eof => Class::Eof,
    }
}

fn copy_entries(entries: &Vec<(NodeId, NodeId)>) -> (r: Vec<(NodeId, NodeId)>)
    ensures
        r@ == entries@,
{
    let mut r: Vec<(NodeId, NodeId)> = Vec::new();
    let mut i: usize = 0;
    while i < entries.len()
        invariant
            i <= entries@.len(),
            r@ == entries@.take(i as int),
        decreases entries@.len() - i,
    {
        r.push(entries[i]);
        i = i + 1;
        assert(r@ =~= entries@.take(i as int));
    }
    assert(entries@.take(entries@.len() as int) =~= entries@);
    r
}

/// Every id of `entries` names a node of an arena with `n` nodes.
pub open spec fn entries_below(entries: Seq<(NodeId, NodeId)>, n: int) -> bool {
    forall|i: int| 0 <= i < entries.len() ==> (#[trigger] entries[i]).0.0 < n && entries[i].1.0 < n
}

pub open spec fn ids_below(ids: Seq<NodeId>, n: int) -> bool {
    forall|i: int| 0 <= i < ids.len() ==> (#[trigger] ids[i]).0 < n
}

pub open spec fn trivia_class(c: Class) -> bool {
    c == Class::Comment || c == Class::BlankLine
}

/// `q` is where a value searched for from `pos` starts: the first token at or after `pos`
/// that is not a comment or blank line, or the end of `tokens`.
pub open spec fn content_at(tokens: Seq<TokenWithSpan>, pos: int, q: int) -> bool {
    &&& pos <= q <= tokens.len()
    &&& forall|k: int| pos <= k < q ==> trivia_class(class_spec((#[trigger] tokens[k]).token))
    &&& q < tokens.len() ==> !trivia_class(class_spec(tokens[q].token))
}

proof fn lemma_content_unique(tokens: Seq<TokenWithSpan>, pos: int, a: int, b: int)
    requires
        content_at(tokens, pos, a),
        content_at(tokens, pos, b),
    ensures
        a == b,
{
    if a < b {
        assert(trivia_class(class_spec(tokens[a].token)));
    } else if b < a {
        assert(trivia_class(class_spec(tokens[b].token)));
    }
}

/// Whether one of `anchors` is named `name`.
pub open spec fn anchored(anchors: Seq<(String, NodeId)>, name: Seq<char>) -> bool {
    exists|i: int| 0 <= i < anchors.len() && (#[trigger] anchors[i]).0@ == name
}

/// `i` is the first of `anchors` named `name`.
pub open spec fn first_anchor(anchors: Seq<(String, NodeId)>, name: Seq<char>, i: int) -> bool {
    &&& 0 <= i < anchors.len()
    &&& anchors[i].0@ == name
    &&& forall|j: int| 0 <= j < i ==> (#[trigger] anchors[j]).0@ != name
}

struct Parser<'a, R: SexagesimalFloats> {
    tokens: Vec<TokenWithSpan>,
    pos: usize,
    source: &'a str,
    document: Document,
    anchors: Vec<(String, NodeId)>,
    current_doc_version: YamlVersion,
    /// Whether `ParserOptions::yaml_version` fixed the version.
    version_explicit: bool,
    /// Whether the version was fixed by the options or by a `%YAML` directive.
    version_pinned: bool,
    merge_keys: bool,
    strict_version: bool,
    pending_trivia: Vec<Trivia>,
    floats: &'a R,
}

impl<'a, R: SexagesimalFloats> Parser<'a, R> {
    spec fn inv(&self) -> bool {
        &&& self.pos <= self.tokens@.len()
        &&& self.document.wf()
        &&& forall|i: int|
            0 <= i < self.anchors@.len() ==> (#[trigger] self.anchors@[i]).1.0
                < self.document.nodes@.len()
        &&& byte_len(self.source@) <= isize::MAX
        &&& forall|i: int|
            0 <= i < self.tokens@.len() ==> span_in(self.source@, (#[trigger] self.tokens@[i]).span) && span_at(
                self.source@,
                self.tokens@[i].span,
            )
        &&& forall|i: int, j: int|
            0 <= i < j < self.tokens@.len() ==> (#[trigger] self.tokens@[i]).span.start <= (#[trigger] self.tokens@[j]).span.start
        &&& spans_ok(self.source@, self.document.nodes@)
        &&& positions_ok(self.source@, self.document.nodes@)
    }

    /// What parsing a value whose first token is at `q` gives, from this state to `after`:
    /// at the end, an end-of-input error; an alias of an undeclared anchor, an unknown-anchor
    /// error, and of a declared one, an alias node to the first node declared under that name;
    /// a block scalar, a string scalar of its text; a plain or quoted scalar, a scalar of that
    /// spelling, or a mapping when a `:` follows; an anchor, the anchored node, under a name not
    /// declared before; a tag, the tagged node; `{`, `[`, `-` and `?`, a mapping or sequence;
    /// anything else, an unexpected-character error. Success is owed where nothing but the
    /// arena's size or the strict-version check can stop it.
    spec fn value_parsed(&self, after: &Self, q: int, r: Result<NodeId, YamlError>) -> bool {
        let toks = self.tokens@;
        let room = self.document.nodes@.len() <= u32::MAX;
        if q >= toks.len() {
            r matches Err(e) && e.kind == ErrorKind::UnexpectedEof
        } else {
            match toks[q].token {
                ParserToken::Alias(name) => if !anchored(self.anchors@, name@) {
                    r matches Err(e) && e.kind == ErrorKind::UnknownAnchor
                } else {
                    &&& room ==> r is Ok
                    &&& forall|i: int| first_anchor(self.anchors@, name@, i) ==> (r matches Ok(id)
                        ==> after.document.nodes@[id.0 as int].kind == NodeKind::Alias(self.anchors@[i].1))
                },
                ParserToken::BlockScalar { value, .. } => {
                    &&& room ==> r is Ok
                    &&& r matches Ok(id) ==> (after.document.nodes@[id.0 as int].kind matches NodeKind::Scalar(sc)
                        && sc.value matches ScalarValue::String(v) && v@ == value@ && sc.raw@ == value@)
                },
                ParserToken::Scalar { raw, .. } => if q + 1 < toks.len() && class_spec(toks[q + 1].token) == Class::Colon {
                    r matches Ok(id) ==> after.document.nodes@[id.0 as int].kind is Mapping
                } else {
                    &&& (room && !(self.strict_version && !self.version_pinned)) ==> r is Ok
                    &&& r matches Ok(id) ==> (after.document.nodes@[id.0 as int].kind matches NodeKind::Scalar(sc) && sc.raw@
                        == raw@)
                    &&& r is Ok ==> after.pos == q + 1
                },
                ParserToken::Anchor(name) => r matches Ok(id) ==> (after.document.nodes@[id.0 as int].anchor matches Some(a)
                    && a@ == name@ && !anchored(self.anchors@, name@)),
                ParserToken::Tag(t) => r matches Ok(id) ==> (after.document.nodes@[id.0 as int].tag matches Some(a) && a@
                    == t@),
                ParserToken::LeftBrace => r matches Ok(id) ==> after.document.nodes@[id.0 as int].kind is Mapping,
                ParserToken::MappingKey => r matches Ok(id) ==> after.document.nodes@[id.0 as int].kind is Mapping,
                ParserToken::LeftBracket => r matches Ok(id) ==> after.document.nodes@[id.0 as int].kind is Sequence,
                ParserToken::SequenceEntry => r matches Ok(id) ==> after.document.nodes@[id.0 as int].kind is Sequence,
                _ => r matches Err(e) && e.kind == ErrorKind::UnexpectedCharacter,
            }
        }
    }

    /// The class of the token at the current position.
    spec fn class_here(&self) -> Class {
        class_spec(self.tokens@[self.pos as int].token)
    }

    /// What every step keeps: the tokens, the flags and the documents found so far; the
    /// position, the arena and the declared anchors only grow.
    spec fn keeps(&self, after: &Self) -> bool {
        &&& after.tokens@ == self.tokens@
        &&& after.pos >= self.pos
        &&& after.document.nodes@.len() >= self.document.nodes@.len()
        &&& after.document.documents@ == self.document.documents@
        &&& after.source == self.source
        &&& after.merge_keys == self.merge_keys
        &&& after.strict_version == self.strict_version
        &&& after.version_explicit == self.version_explicit
        &&& (self.version_explicit ==> after.document.version == self.document.version)
        &&& after.anchors@.len() >= self.anchors@.len()
        &&& forall|i: int| 0 <= i < self.anchors@.len() ==> #[trigger] after.anchors@[i] == self.anchors@[i]
    }

    fn new(source: &'a str, tokens: Vec<TokenWithSpan>, options: &ParserOptions, floats: &'a R) -> (p: Self)
        requires
            byte_len(source@) <= isize::MAX,
            forall|i: int| 0 <= i < tokens@.len() ==> span_in(source@, (#[trigger] tokens@[i]).span) && span_at(source@, tokens@[i].span),
            forall|i: int, j: int| 0 <= i < j < tokens@.len() ==> (#[trigger] tokens@[i]).span.start <= (#[trigger] tokens@[j]).span.start,
        ensures
            p.inv(),
            p.source == source,
            p.pos == 0,
            p.tokens@ == tokens@,
            p.document.documents@.len() == 0,
            p.document.nodes@.len() == 0,
            options.yaml_version matches Some(v) ==> p.document.version == v && p.version_explicit,
    {
        let version = match options.yaml_version {
            Some(v) => v,
            None => YamlVersion::Version12,
        };
        Parser {
            tokens,
            pos: 0,
            source,
            document: Document::new(version),
            anchors: Vec::new(),
            current_doc_version: version,
            version_explicit: options.yaml_version.is_some(),
            version_pinned: options.yaml_version.is_some(),
            merge_keys: options.merge_keys,
            strict_version: options.strict_version,
            pending_trivia: Vec::new(),
            floats,
        }
    }

    /// The class and span of the current token.
    fn peek(&self) -> (r: Option<(Class, Span)>)
        requires
            self.pos <= self.tokens@.len(),
        ensures
            r is Some <==> self.pos < self.tokens@.len(),
            r matches Some((c, s)) ==> c == class_spec(self.tokens@[self.pos as int].token) && s
                == self.tokens@[self.pos as int].span,
    {
        if self.pos < self.tokens.len() {
            let t = &self.tokens[self.pos];
            Some((class_of(&t.token), t.span))
        } else {
            None
        }
    }

    /// The class of the token after the current one.
    fn peek_next_class(&self) -> (r: Option<Class>)
        requires
            self.pos <= self.tokens@.len(),
        ensures
            r == (if self.pos + 1 < self.tokens@.len() {
                Some(class_spec(self.tokens@[self.pos + 1].token))
            } else {
                None::<Class>
            }),
    {
        if self.pos < self.tokens.len() && self.pos + 1 < self.tokens.len() {
            Some(class_of(&self.tokens[self.pos + 1].token))
        } else {
            None
        }
    }

    fn advance(&mut self)
        requires
            old(self).inv(),
        ensures
            final(self).inv(),
            old(self).keeps(final(self)),
            old(self).pos < old(self).tokens@.len() ==> final(self).pos == old(self).pos + 1,
            old(self).pos >= old(self).tokens@.len() ==> final(self).pos == old(self).pos,
            final(self).document == old(self).document,
            final(self).anchors == old(self).anchors,
            final(self).version_pinned == old(self).version_pinned,
            final(self).pending_trivia == old(self).pending_trivia,
    {
        if self.pos < self.tokens.len() {
            self.pos = self.pos + 1;
        }
    }

    fn at_eof(&self) -> (r: bool)
        requires
            self.pos <= self.tokens@.len(),
        ensures
            !r ==> self.pos < self.tokens@.len() && self.class_here() != Class::Eof,
            r ==> self.pos == self.tokens@.len() || self.class_here() == Class::Eof,
    {
        match self.peek() {
            Some((Class::Eof, _)) => true,
            Some(_) => false,
            None => true,
        }
    }

    fn at_document_start(&self) -> (r: bool)
        requires
            self.pos <= self.tokens@.len(),
        ensures
            r == (self.pos < self.tokens@.len() && self.class_here() == Class::DocumentStart),
    {
        match self.peek() {
            Some((Class::DocumentStart, _)) => true,
            _ => false,
        }
    }

    fn source_len(&self) -> (r: usize)
        ensures
            r == byte_len(self.source@),
    {
        proof {
            crate::text::lemma_byte_len_encode(self.source@);
        }
        self.source.as_bytes().len()
    }

    /// An error at byte `offset` of the source.
    fn error_at_offset(&self, offset: usize, kind: ErrorKind, message: &str) -> (e: YamlError)
        requires
            byte_len(self.source@) <= isize::MAX,
        ensures
            e.kind == kind,
            e.offset == offset,
    {
        YamlError::near(offset, kind, message, self.source)
    }

    /// An error at the current token, or at the end of the source.
    fn error(&self, kind: ErrorKind, message: &str) -> (e: YamlError)
        requires
            self.pos <= self.tokens@.len(),
            byte_len(self.source@) <= isize::MAX,
        ensures
            e.kind == kind,
    {
        let offset = match self.peek() {
            Some((_, span)) => span.start,
            None => self.source_len(),
        };
        self.error_at_offset(offset, kind, message)
    }

    /// Adds a node to the arena, failing only when node ids would no longer fit in `u32`.
    fn push_node(&mut self, kind: NodeKind, span: Option<Span>) -> (r: Result<NodeId, YamlError>)
        requires
            old(self).inv(),
            span matches Some(sp) ==> span_in(old(self).source@, sp) && span_at(old(self).source@, sp),
            refs_below(kind, old(self).document.nodes@.len() as int),
        ensures
            final(self).inv(),
            old(self).keeps(final(self)),
            final(self).pos == old(self).pos,
            r matches Ok(id) ==> id.0 == old(self).document.nodes@.len()
                && final(self).document.nodes@.len() == old(self).document.nodes@.len() + 1
                && final(self).document.nodes@[id.0 as int].kind == kind,
            r is Err <==> old(self).document.nodes@.len() > u32::MAX,
            r matches Ok(id) ==> final(self).document.nodes@ == old(self).document.nodes@.push(
                NodeData { id, kind, span, trivia: final(self).document.nodes@.last().trivia, anchor: None, tag: None },
            ) && final(self).document.nodes@.last().trivia@.len() == 0,
            r matches Err(e) ==> e.kind == ErrorKind::Other && final(self).document == old(self).document,
            final(self).anchors == old(self).anchors,
            final(self).pending_trivia == old(self).pending_trivia,
    {
        if self.document.nodes.len() > 0xffff_ffffusize {
            return Err(self.error(ErrorKind::Other, "document has too many nodes"));
        }
        let ghost before = self.document.nodes@;
        let id = self.document.add_node(NodeData::new(NodeId(0), kind, span));
        proof {
            assert forall|k: int| 0 <= k < self.document.nodes@.len() implies match (#[trigger] self.document.nodes@[k]).span {
                Some(sp) => sp.start <= sp.end && crate::diagnostics::on_boundary(self.source@, sp.start as int)
                    && crate::diagnostics::on_boundary(self.source@, sp.end as int),
                None => true,
            } && (self.document.nodes@[k].span matches Some(sp) ==> span_at(self.source@, sp)) by {
                if k < before.len() {
                    assert(self.document.nodes@[k] == before[k]);
                }
            }
        }
        Ok(id)
    }

    fn add_null_node(&mut self, span: Span) -> (r: Result<NodeId, YamlError>)
        requires
            old(self).inv(),
            span_in(old(self).source@, span),
            span_at(old(self).source@, span),
        ensures
            final(self).inv(),
            old(self).keeps(final(self)),
            final(self).pos == old(self).pos,
            r matches Ok(id) ==> (id.0 as int) < final(self).document.nodes@.len(),
            r is Err <==> old(self).document.nodes@.len() > u32::MAX,
            r matches Ok(id) ==> id.0 == old(self).document.nodes@.len()
                && final(self).document.nodes@.len() == old(self).document.nodes@.len() + 1
                && final(self).document.nodes@[id.0 as int].span == Some(span)
                && (final(self).document.nodes@[id.0 as int].kind matches NodeKind::Scalar(sc)
                && sc.value is Null && sc.style == ScalarStyle::Plain && sc.raw@.len() == 0 && sc.tag is None),
            r is Err ==> final(self).document == old(self).document,
    {
        let scalar = Scalar {
            value: ScalarValue::Null,
            style: ScalarStyle::Plain,
            raw: String::new(),
            tag: None,
        };
        self.push_node(NodeKind::Scalar(scalar), Some(span))
    }

    /// Moves the trivia collected so far onto node `id`.
    fn attach_trivia(&mut self, id: NodeId)
        requires
            old(self).inv(),
        ensures
            final(self).inv(),
            old(self).keeps(final(self)),
            final(self).pos == old(self).pos,
            final(self).document.nodes@.len() == old(self).document.nodes@.len(),
            final(self).anchors == old(self).anchors,
            final(self).document.documents == old(self).document.documents,
            (id.0 as int) < old(self).document.nodes@.len() ==> {
                let i = id.0 as int;
                let n = old(self).document.nodes@[i];
                &&& final(self).pending_trivia@.len() == 0
                &&& final(self).document.nodes@[i].trivia@ == n.trivia@ + old(self).pending_trivia@
                &&& final(self).document.nodes@ == old(self).document.nodes@.update(
                    i,
                    NodeData { trivia: final(self).document.nodes@[i].trivia, ..n },
                )
            },
            (id.0 as int) >= old(self).document.nodes@.len() ==> final(self).document == old(self).document
                && final(self).pending_trivia == old(self).pending_trivia,
    {
        let i = id.get() as usize;
        if i < self.document.nodes.len() {
            let mut moved: Vec<Trivia> = Vec::new();
            std::mem::swap(&mut moved, &mut self.pending_trivia);
            let ghost before = self.document.nodes@;
            let node = &mut self.document.nodes[i];
            node.trivia.append(&mut moved);
            proof {
                assert forall|k: int| 0 <= k < self.document.nodes@.len() implies (
                #[trigger] self.document.nodes@[k]).id.0 == k && refs_below(
                    self.document.nodes@[k].kind,
                    k,
                ) by {
                    assert(before[k].id.0 == k && refs_below(before[k].kind, k));
                }
            }
        }
    }

    fn set_anchor(&mut self, id: NodeId, name: String)
        requires
            old(self).inv(),
        ensures
            final(self).inv(),
            old(self).keeps(final(self)),
            final(self).pos == old(self).pos,
            final(self).document.nodes@.len() == old(self).document.nodes@.len(),
            final(self).anchors@ == old(self).anchors@,
            final(self).document.documents == old(self).document.documents,
            final(self).pending_trivia == old(self).pending_trivia,
            (id.0 as int) < old(self).document.nodes@.len() ==> final(self).document.nodes@ == old(self).document.nodes@.update(
                id.0 as int,
                NodeData { anchor: Some(name), ..old(self).document.nodes@[id.0 as int] },
            ),
            (id.0 as int) >= old(self).document.nodes@.len() ==> final(self).document == old(self).document,
    {
        let i = id.get() as usize;
        if i < self.document.nodes.len() {
            let ghost before = self.document.nodes@;
            let node = &mut self.document.nodes[i];
            node.anchor = Some(name);
            proof {
                assert forall|k: int| 0 <= k < self.document.nodes@.len() implies (
                #[trigger] self.document.nodes@[k]).id.0 == k && refs_below(
                    self.document.nodes@[k].kind,
                    k,
                ) by {
                    assert(before[k].id.0 == k && refs_below(before[k].kind, k));
                }
            }
        }
    }

    fn set_tag(&mut self, id: NodeId, tag: String)
        requires
            old(self).inv(),
        ensures
            final(self).inv(),
            old(self).keeps(final(self)),
            final(self).pos == old(self).pos,
            final(self).document.nodes@.len() == old(self).document.nodes@.len(),
            final(self).anchors@ == old(self).anchors@,
            final(self).document.documents == old(self).document.documents,
            final(self).pending_trivia == old(self).pending_trivia,
            (id.0 as int) < old(self).document.nodes@.len() ==> final(self).document.nodes@ == old(self).document.nodes@.update(
                id.0 as int,
                NodeData { tag: Some(tag), ..old(self).document.nodes@[id.0 as int] },
            ),
            (id.0 as int) >= old(self).document.nodes@.len() ==> final(self).document == old(self).document,
    {
        let i = id.get() as usize;
        if i < self.document.nodes.len() {
            let ghost before = self.document.nodes@;
            let node = &mut self.document.nodes[i];
            node.tag = Some(tag);
            proof {
                assert forall|k: int| 0 <= k < self.document.nodes@.len() implies (
                #[trigger] self.document.nodes@[k]).id.0 == k && refs_below(
                    self.document.nodes@[k].kind,
                    k,
                ) by {
                    assert(before[k].id.0 == k && refs_below(before[k].kind, k));
                }
            }
        }
    }

    /// Collects comments and blank lines as pending trivia.
    fn skip_trivia(&mut self)
        requires
            old(self).inv(),
        ensures
            final(self).inv(),
            old(self).keeps(final(self)),
            final(self).document.nodes@.len() == old(self).document.nodes@.len(),
            final(self).anchors@ == old(self).anchors@,
            final(self).pos == final(self).tokens@.len() || !trivia_class(final(self).class_here()),
            old(self).pos < old(self).tokens@.len() && !trivia_class(old(self).class_here())
                ==> final(self).pos == old(self).pos,
            forall|k: int| old(self).pos <= k < final(self).pos ==> trivia_class(class_spec((#[trigger] final(self).tokens@[k]).token)),
            final(self).document.nodes == old(self).document.nodes,
            final(self).version_pinned == old(self).version_pinned,
            content_at(old(self).tokens@, old(self).pos as int, final(self).pos as int),
    {
        loop
            invariant
                self.inv(),
                old(self).keeps(self),
                self.document.nodes@.len() == old(self).document.nodes@.len(),
                self.document.nodes == old(self).document.nodes,
                self.anchors@ == old(self).anchors@,
                self.version_pinned == old(self).version_pinned,
                forall|k: int| old(self).pos <= k < self.pos ==> trivia_class(class_spec((#[trigger] self.tokens@[k]).token)),
                self.pos > old(self).pos ==> old(self).pos < old(self).tokens@.len() && trivia_class(
                    old(self).class_here(),
                ),
            ensures
                self.inv(),
                old(self).keeps(self),
                self.document.nodes@.len() == old(self).document.nodes@.len(),
                self.document.nodes == old(self).document.nodes,
                self.anchors@ == old(self).anchors@,
                self.pos > old(self).pos ==> old(self).pos < old(self).tokens@.len() && trivia_class(
                    old(self).class_here(),
                ),
                self.pos == self.tokens@.len() || !trivia_class(self.class_here()),
                self.version_pinned == old(self).version_pinned,
                forall|k: int| old(self).pos <= k < self.pos ==> trivia_class(class_spec((#[trigger] self.tokens@[k]).token)),
            decreases self.tokens@.len() - self.pos,
        {
            if self.pos >= self.tokens.len() {
                break;
            }
            let t = &self.tokens[self.pos];
            let trivia = match &t.token {
                ParserToken::Comment(text) => Trivia {
                    kind: TriviaKind::Comment(text.clone()),
                    span: t.span,
                },
                ParserToken::BlankLine => Trivia { kind: TriviaKind::BlankLine, span: t.span },
                _ => {
                    break;
                },
            };
            self.pending_trivia.push(trivia);
            self.advance();
        }
    }

    fn maybe_consume_document_start(&mut self) -> (r: Option<Span>)
        requires
            old(self).inv(),
        ensures
            final(self).inv(),
            old(self).keeps(final(self)),
            old(self).pos < old(self).tokens@.len() && old(self).class_here() == Class::DocumentStart
                ==> final(self).pos == old(self).pos + 1,
            !(old(self).pos < old(self).tokens@.len() && old(self).class_here() == Class::DocumentStart)
                ==> final(self).pos == old(self).pos,
            final(self).document.nodes@.len() == old(self).document.nodes@.len(),
            final(self).anchors@ == old(self).anchors@,
            r matches Some(sp) ==> span_in(old(self).source@, sp) && span_at(old(self).source@, sp),
    {
        match self.peek() {
            Some((Class::DocumentStart, span)) => {
                self.advance();
                Some(span)
            },
            _ => None,
        }
    }

    fn consume_document_end(&mut self) -> (r: Option<Span>)
        requires
            old(self).inv(),
        ensures
            final(self).inv(),
            old(self).keeps(final(self)),
            old(self).pos < old(self).tokens@.len() && old(self).class_here() == Class::DocumentEnd
                ==> final(self).pos == old(self).pos + 1,
            !(old(self).pos < old(self).tokens@.len() && old(self).class_here() == Class::DocumentEnd)
                ==> final(self).pos == old(self).pos,
            final(self).document.nodes@.len() == old(self).document.nodes@.len(),
            final(self).document.nodes == old(self).document.nodes,
            final(self).anchors@ == old(self).anchors@,
    {
        match self.peek() {
            Some((Class::DocumentEnd, span)) => {
                self.advance();
                Some(span)
            },
            _ => None,
        }
    }

    /// Applies every directive at the current position.
    fn consume_directives(&mut self) -> (r: Result<(), YamlError>)
        requires
            old(self).inv(),
        ensures
            final(self).inv(),
            old(self).keeps(final(self)),
            final(self).document.nodes@.len() == old(self).document.nodes@.len(),
            final(self).anchors@ == old(self).anchors@,
            r is Ok ==> final(self).pos == final(self).tokens@.len() || (final(self).class_here() != Class::Directive
                && !trivia_class(final(self).class_here())),
            r matches Err(e) ==> e.kind == ErrorKind::InvalidDirective,
            old(self).pos < old(self).tokens@.len() && !trivia_class(old(self).class_here()) && old(self).class_here()
                != Class::Directive ==> r is Ok && final(self).pos == old(self).pos,
            final(self).document.nodes == old(self).document.nodes,
    {
        loop
            invariant
                self.inv(),
                old(self).keeps(self),
                self.document.nodes == old(self).document.nodes,
                self.document.nodes@.len() == old(self).document.nodes@.len(),
                self.anchors@ == old(self).anchors@,
                old(self).pos < old(self).tokens@.len() && !trivia_class(old(self).class_here()) && old(self).class_here()
                    != Class::Directive ==> self.pos == old(self).pos,
            ensures
                self.inv(),
                old(self).keeps(self),
                self.document.nodes == old(self).document.nodes,
                self.document.nodes@.len() == old(self).document.nodes@.len(),
                self.anchors@ == old(self).anchors@,
                self.pos == self.tokens@.len() || (self.class_here() != Class::Directive && !trivia_class(self.class_here())),
            decreases self.tokens@.len() - self.pos,
        {
            self.skip_trivia();
            if self.pos >= self.tokens.len() {
                break;
            }
            let (text, span) = match &self.tokens[self.pos].token {
                ParserToken::Directive(text) => (text.clone(), self.tokens[self.pos].span),
                _ => {
                    break;
                },
            };
            self.apply_directive(&text, span)?;
            self.advance();
        }
        Ok(())
    }

    /// A `%YAML` directive sets the version unless the options fixed it.
    fn apply_directive(&mut self, text: &String, span: Span) -> (r: Result<(), YamlError>)
        requires
            old(self).inv(),
        ensures
            final(self).inv(),
            old(self).keeps(final(self)),
            final(self).pos == old(self).pos,
            final(self).document.nodes@.len() == old(self).document.nodes@.len(),
            final(self).anchors@ == old(self).anchors@,
            old(self).version_explicit ==> final(self).document.version == old(self).document.version,
            final(self).anchors == old(self).anchors,
            final(self).document.nodes == old(self).document.nodes,
            ({
                let ws = words_from(text@, 0, Seq::empty(), Seq::empty());
                let yaml = ws.len() >= 2 && ws[0] == "YAML"@;
                &&& r is Err <==> yaml && version_named(ws[1]) is None
                &&& r matches Err(e) ==> e.kind == ErrorKind::InvalidDirective
                &&& (r is Ok && yaml && !old(self).version_explicit) ==> (final(self).document.version
                    == version_named(ws[1])->0 && final(self).current_doc_version == final(self).document.version
                    && final(self).version_pinned)
                &&& !(r is Ok && yaml && !old(self).version_explicit) ==> (final(self).document.version
                    == old(self).document.version && final(self).current_doc_version == old(self).current_doc_version
                    && final(self).version_pinned == old(self).version_pinned)
            }),
    {
        let words = whitespace_words(text.as_str());
        if words.len() >= 1 && crate::text::chars_are(&words[0], "YAML") && words.len() >= 2 {
            let ver = string_from_chars(words[1].as_slice());
            match YamlVersion::parse_text(ver.as_str()) {
                Ok(version) => {
                    if !self.version_explicit {
                        self.current_doc_version = version;
                        self.document.version = version;
                        self.version_pinned = true;
                    }
                },
                Err(()) => {
                    return Err(
                        self.error_at_offset(
                            span.start,
                            ErrorKind::InvalidDirective,
                            "unrecognized %YAML version",
                        ),
                    );
                },
            }
        }
        Ok(())
    }

    fn parse_document(&mut self, doc_start_span: Option<Span>) -> (r: Result<NodeId, YamlError>)
        requires
            old(self).inv(),
            doc_start_span matches Some(sp) ==> span_in(old(self).source@, sp) && span_at(old(self).source@, sp),
        ensures
            final(self).inv(),
            old(self).keeps(final(self)),
            r matches Ok(id) ==> (id.0 as int) < final(self).document.nodes@.len(),
            r is Ok ==> final(self).pos > old(self).pos || (final(self).pos == old(self).pos && (
            old(self).pos == old(self).tokens@.len() || old(self).class_here() == Class::Eof
                || old(self).class_here() == Class::DocumentEnd)),
            forall|q: int| content_at(old(self).tokens@, old(self).pos as int, q) && q < old(self).tokens@.len() && class_spec(
                old(self).tokens@[q].token,
            ) != Class::Eof && class_spec(old(self).tokens@[q].token) != Class::DocumentEnd ==> old(self).value_parsed(
                final(self),
                q,
                r,
            ),
    {
        self.skip_trivia();
        let ghost s1 = *self;
        proof {
            assert forall|q: int| content_at(old(self).tokens@, old(self).pos as int, q) implies q == self.pos by {
                lemma_content_unique(old(self).tokens@, old(self).pos as int, q, self.pos as int);
            }
            if self.pos < self.tokens@.len() {
                assert(content_at(self.tokens@, self.pos as int, self.pos as int));
            }
        }
        let at_end = match self.peek() {
            None => true,
            Some((Class::Eof, _)) => true,
            Some((Class::DocumentEnd, _)) => true,
            _ => false,
        };
        if at_end {
            let span = match doc_start_span {
                Some(s) => s,
                None => match self.peek() {
                    Some((_, s)) => s,
                    None => Span::new(0, 0, 1, 1),
                },
            };
            proof {
                lemma_zero_on_boundary(self.source@);
                lemma_origin_at(self.source@);
            }
            return self.add_null_node(span);
        }
        let r = self.parse_value();
        proof {
            assert(s1.value_parsed(&*self, s1.pos as int, r));
            assert(old(self).value_parsed(&*self, s1.pos as int, r));
        }
        r
    }

    /// Whether a value follows a mapping key at `key_col`/`key_line`: on the key's line
    /// anything but a document marker; on a later line a sequence entry at the key's column or
    /// anything else indented further.
    fn value_follows_key(&self, key_col: usize, key_line: usize) -> (r: bool)
        requires
            self.pos <= self.tokens@.len(),
        ensures
            r == (self.pos < self.tokens@.len() && follows_key(
                self.class_here(),
                self.tokens@[self.pos as int].span,
                key_col,
                key_line,
            )),
    {
        match self.peek() {
            None => false,
            Some((c, span)) => {
                if span.line == key_line {
                    return !(c == Class::DocumentEnd || c == Class::DocumentStart);
                }
                match c {
                    Class::DocumentStart | Class::DocumentEnd => false,
                    Class::SequenceEntry => span.column >= key_col,
                    _ => span.column > key_col,
                }
            },
        }
    }

    /// Whether a value follows a sequence dash at `dash_col`/`dash_line`.
    fn value_follows_dash(&self, dash_col: usize, dash_line: usize) -> (r: bool)
        requires
            self.pos <= self.tokens@.len(),
        ensures
            r == (self.pos < self.tokens@.len() && follows_dash(
                self.class_here(),
                self.tokens@[self.pos as int].span,
                dash_col,
                dash_line,
            )),
    {
        match self.peek() {
            None => false,
            Some((c, span)) => {
                if span.line == dash_line {
                    return !(c == Class::Comma || c == Class::RightBrace || c
                        == Class::RightBracket);
                }
                match c {
                    Class::DocumentStart | Class::DocumentEnd => false,
                    _ => span.column > dash_col,
                }
            },
        }
    }

    fn peek_is_colon(&self) -> (r: bool)
        requires
            self.pos <= self.tokens@.len(),
        ensures
            r == (self.pos + 1 < self.tokens@.len() && class_spec(self.tokens@[self.pos + 1].token) == Class::Colon),
    {
        match self.peek_next_class() {
            Some(Class::Colon) => true,
            _ => false,
        }
    }

    /// The index of anchor `name`, if it was declared.
    fn find_anchor(&self, name: &str) -> (r: Option<usize>)
        ensures
            r matches Some(i) ==> i < self.anchors@.len() && self.anchors@[i as int].0@ == name@ && forall|j: int|
                0 <= j < i ==> (#[trigger] self.anchors@[j]).0@ != name@,
            r is None ==> forall|j: int| 0 <= j < self.anchors@.len() ==> (#[trigger] self.anchors@[j]).0@ != name@,
    {
        let mut i: usize = 0;
        while i < self.anchors.len()
            invariant
                i <= self.anchors@.len(),
                forall|j: int| 0 <= j < i ==> (#[trigger] self.anchors@[j]).0@ != name@,
            decreases self.anchors@.len() - i,
        {
            if same_text(self.anchors[i].0.as_str(), name) {
                return Some(i);
            }
            i = i + 1;
        }
        None
    }

    /// Registers anchor `name` for node `id`; a name declared before is an error.
    fn register_anchor(&mut self, name: &String, id: NodeId, span: Span) -> (r: Result<(), YamlError>)
        requires
            old(self).inv(),
            (id.0 as int) < old(self).document.nodes@.len(),
        ensures
            final(self).inv(),
            old(self).keeps(final(self)),
            final(self).pos == old(self).pos,
            final(self).document.nodes@.len() == old(self).document.nodes@.len(),
            r is Ok <==> forall|j: int| 0 <= j < old(self).anchors@.len() ==> (#[trigger] old(self).anchors@[j]).0@ != name@,
            r matches Err(e) ==> e.kind == ErrorKind::InvalidAnchor && final(self).anchors@ == old(self).anchors@,
            r is Ok ==> final(self).anchors@.len() == old(self).anchors@.len() + 1
                && final(self).anchors@.take(old(self).anchors@.len() as int) == old(self).anchors@
                && final(self).anchors@.last().0@ == name@ && final(self).anchors@.last().1 == id,
            final(self).document == old(self).document,
    {
        if self.find_anchor(name.as_str()).is_some() {
            return Err(self.error_at_offset(span.start, ErrorKind::InvalidAnchor, "duplicate anchor"));
        }
        let ghost before = self.anchors@;
        self.anchors.push((name.clone(), id));
        assert(self.anchors@.take(before.len() as int) =~= before);
        Ok(())
    }

    /// A scalar's typed value: quoted and block scalars, and `!str`-tagged ones, stay strings;
    /// plain scalars resolve under the current version, after the strict-version check.
    fn resolve_scalar_value(&self, raw: &String, style: ScalarStyle, tag: &Option<String>, span: Span) -> (r: Result<ScalarValue, YamlError>)
        requires
            self.inv(),
        ensures
            stays_string(style, opt_text(*tag)) ==> (r matches Ok(ScalarValue::String(t)) && t@ == raw@),
            !stays_string(style, opt_text(*tag)) ==> (r matches Ok(v) ==> exists|b: bool|
                v@ == resolve_model(raw@, self.current_doc_version, b)),
            !(self.strict_version && !self.version_pinned) ==> r is Ok,
            r matches Err(e) ==> e.kind == ErrorKind::AmbiguousVersion,
    {
        if let Some(t) = tag {
            if same_text(t.as_str(), "!str") {
                return Ok(ScalarValue::String(raw.clone()));
            }
        }
        if style != ScalarStyle::Plain {
            return Ok(ScalarValue::String(raw.clone()));
        }
        let trimmed = string_from_chars(trim_chars(&chars_of(raw.as_str())).as_slice());
        let sexagesimal = self.floats.is_sexagesimal_float(trimmed.as_str());
        if self.strict_version && !self.version_pinned {
            let under_1_1 = resolve_scalar(raw.as_str(), YamlVersion::Version11, sexagesimal);
            let under_1_2 = resolve_scalar(raw.as_str(), YamlVersion::Version12, sexagesimal);
            if !values_agree(&under_1_1, &under_1_2) {
                return Err(
                    self.error_at_offset(
                        span.start,
                        ErrorKind::AmbiguousVersion,
                        "resolves differently under YAML 1.1 vs 1.2; pin a version with a '%YAML' directive or ParserOptions::yaml_version, or quote the scalar to force it to a string",
                    ),
                );
            }
        }
        Ok(resolve_scalar(raw.as_str(), self.current_doc_version, sexagesimal))
    }

    /// Adds a scalar node for the scalar token at the current position.
    fn scalar_node(&mut self) -> (r: Result<NodeId, YamlError>)
        requires
            old(self).inv(),
            old(self).pos < old(self).tokens@.len(),
        ensures
            final(self).inv(),
            old(self).keeps(final(self)),
            final(self).pos == old(self).pos,
            r matches Ok(id) ==> (id.0 as int) < final(self).document.nodes@.len(),
            r matches Ok(id) ==> id.0 == old(self).document.nodes@.len() && final(self).document.nodes@.len()
                == old(self).document.nodes@.len() + 1 && final(self).document.nodes@[id.0 as int].span == Some(
                old(self).tokens@[old(self).pos as int].span,
            ) && (old(self).tokens@[old(self).pos as int].token matches ParserToken::Scalar { raw, style, tag } ==> (
            final(self).document.nodes@[id.0 as int].kind matches NodeKind::Scalar(sc) && sc.raw@ == raw@ && sc.style
                == style && opt_text(sc.tag) == opt_text(tag))),
            r is Err ==> (old(self).strict_version && !old(self).version_pinned) || old(self).document.nodes@.len()
                > u32::MAX,
    {
        let t = &self.tokens[self.pos];
        let span = t.span;
        let (raw, style, tag) = match &t.token {
            ParserToken::Scalar { raw, style, tag } => (raw.clone(), *style, copy_tag(tag)),
            _ => (String::new(), ScalarStyle::Plain, None),
        };
        let value = self.resolve_scalar_value(&raw, style, &tag, span)?;
        self.push_node(NodeKind::Scalar(Scalar { value, style, raw, tag }), Some(span))
    }

    fn parse_value(&mut self) -> (r: Result<NodeId, YamlError>)
        requires
            old(self).inv(),
        ensures
            final(self).inv(),
            old(self).keeps(final(self)),
            r matches Ok(id) ==> (id.0 as int) < final(self).document.nodes@.len(),
            r is Ok ==> final(self).pos > old(self).pos,
            forall|q: int| content_at(old(self).tokens@, old(self).pos as int, q) ==> old(self).value_parsed(final(self), q, r),
        decreases old(self).tokens@.len() - old(self).pos, 3nat,
    {
        self.skip_trivia();
        proof {
            assert forall|q: int| content_at(old(self).tokens@, old(self).pos as int, q) implies q == self.pos by {
                lemma_content_unique(old(self).tokens@, old(self).pos as int, q, self.pos as int);
            }
        }
        let (class, span) = match self.peek() {
            Some(cs) => cs,
            None => {
                return Err(self.error(ErrorKind::UnexpectedEof, "expected value"));
            },
        };
        let ghost p = self.pos as int;
        let ghost s1 = *self;
        let r = match class {
            Class::Scalar => {
                if self.peek_is_colon() {
                    return self.parse_block_mapping();
                }
                let node = self.scalar_node()?;
                self.attach_trivia(node);
                self.advance();
                Ok(node)
            },
            Class::BlockScalar => {
                let (indicator, value) = match &self.tokens[self.pos].token {
                    ParserToken::BlockScalar { indicator, value } => (*indicator, value.clone()),
                    _ => (BlockIndicator::Literal, String::new()),
                };
                let style = match indicator {
                    BlockIndicator::Literal => ScalarStyle::BlockLiteral,
                    BlockIndicator::Folded => ScalarStyle::BlockChomped,
                };
                let scalar = Scalar {
                    value: ScalarValue::String(value.clone()),
                    style,
                    raw: value,
                    tag: None,
                };
                let node = self.push_node(NodeKind::Scalar(scalar), Some(span))?;
                self.attach_trivia(node);
                self.advance();
                Ok(node)
            },
            Class::Anchor => {
                let name = match &self.tokens[self.pos].token {
                    ParserToken::Anchor(name) => name.clone(),
                    _ => String::new(),
                };
                self.advance();
                self.skip_trivia();
                let ghost s2 = *self;
                let value_node = self.parse_value()?;
                let ghost s3 = *self;
                self.register_anchor(&name, value_node, span)?;
                proof {
                    if anchored(old(self).anchors@, name@) {
                        let i = choose|i: int| 0 <= i < old(self).anchors@.len() && (#[trigger] old(self).anchors@[i]).0@ == name@;
                        assert(s2.anchors@[i] == old(self).anchors@[i]);
                        assert(s3.anchors@[i] == s2.anchors@[i]);
                        assert(false);
                    }
                }
                self.set_anchor(value_node, name);
                Ok(value_node)
            },
            Class::Alias => {
                let name = match &self.tokens[self.pos].token {
                    ParserToken::Alias(name) => name.clone(),
                    _ => String::new(),
                };
                let target = match self.find_anchor(name.as_str()) {
                    Some(i) => self.anchors[i].1,
                    None => {
                        return Err(self.error_at_offset(span.start, ErrorKind::UnknownAnchor, "unknown anchor"));
                    },
                };
                let node = self.push_node(NodeKind::Alias(target), Some(span))?;
                self.attach_trivia(node);
                self.advance();
                Ok(node)
            },
            Class::Tag => {
                let tag = match &self.tokens[self.pos].token {
                    ParserToken::Tag(t) => t.clone(),
                    _ => String::new(),
                };
                self.advance();
                self.skip_trivia();
                let value_node = self.parse_value()?;
                self.set_tag(value_node, tag);
                Ok(value_node)
            },
            Class::LeftBrace => self.parse_flow_mapping(),
            Class::LeftBracket => self.parse_flow_sequence(),
            Class::SequenceEntry => self.parse_block_sequence(),
            Class::MappingKey => self.parse_block_mapping(),
            _ => Err(self.error_at_offset(span.start, ErrorKind::UnexpectedCharacter, "unexpected token in value position")),
        };
        proof {
            assert(s1.tokens@ == old(self).tokens@);
            assert(old(self).value_parsed(&*self, p, r));
        }
        r
    }

    fn parse_block_sequence(&mut self) -> (r: Result<NodeId, YamlError>)
        requires
            old(self).inv(),
            old(self).pos < old(self).tokens@.len(),
            old(self).class_here() == Class::SequenceEntry,
        ensures
            final(self).inv(),
            old(self).keeps(final(self)),
            r matches Ok(id) ==> (id.0 as int) < final(self).document.nodes@.len(),
            r matches Ok(id) ==> final(self).document.nodes@[id.0 as int].kind is Sequence,
            r is Ok ==> final(self).pos > old(self).pos,
        decreases old(self).tokens@.len() - old(self).pos, 2nat,
    {
        let mut items: Vec<NodeId> = Vec::new();
        let mut first_span: Option<Span> = None;
        let mut last_end: usize = 0;
        let mut item_col: Option<usize> = None;
        proof {
            lemma_zero_on_boundary(self.source@);
            lemma_origin_at(self.source@);
        }
        loop
            invariant
                self.inv(),
                old(self).keeps(self),
                ids_below(items@, self.document.nodes@.len() as int),
                on_boundary(self.source@, last_end as int),
                first_span matches Some(sp) ==> span_in(self.source@, sp) && span_at(self.source@, sp),
                item_col is None ==> self.pos == old(self).pos,
                item_col is Some ==> self.pos > old(self).pos,
                old(self).pos < old(self).tokens@.len(),
                old(self).class_here() == Class::SequenceEntry,
            ensures
                self.inv(),
                old(self).keeps(self),
                ids_below(items@, self.document.nodes@.len() as int),
                on_boundary(self.source@, last_end as int),
                first_span matches Some(sp) ==> span_in(self.source@, sp) && span_at(self.source@, sp),
                self.pos > old(self).pos,
            decreases self.tokens@.len() - self.pos,
        {
            self.skip_trivia();
            let (class, entry_span) = match self.peek() {
                Some(cs) => cs,
                None => {
                    break;
                },
            };
            if class != Class::SequenceEntry {
                break;
            }
            match item_col {
                Some(ic) => {
                    if entry_span.column != ic {
                        break;
                    }
                },
                None => {
                    item_col = Some(entry_span.column);
                },
            }
            self.advance();
            if first_span.is_none() {
                first_span = Some(entry_span);
            }
            if entry_span.end > last_end {
                last_end = entry_span.end;
            }
            let item = if self.value_follows_dash(entry_span.column, entry_span.line) {
                self.parse_value()?
            } else {
                self.add_null_node(entry_span)?
            };
            if let Some(s) = self.document.span(item) {
                if s.end > last_end {
                    last_end = s.end;
                }
            }
            items.push(item);
        }
        let span = match first_span {
            Some(s) => Span::new(s.start, if last_end > s.end { last_end } else { s.end }, s.line, s.column),
            None => Span::new(0, 0, 1, 1),
        };
        let node = self.push_node(NodeKind::Sequence(items), Some(span))?;
        self.attach_trivia(node);
        Ok(node)
    }

    #[verifier::rlimit(40)]
    fn parse_block_mapping(&mut self) -> (r: Result<NodeId, YamlError>)
        requires
            old(self).inv(),
            old(self).pos < old(self).tokens@.len(),
            old(self).class_here() == Class::MappingKey || old(self).class_here() == Class::Scalar,
        ensures
            final(self).inv(),
            old(self).keeps(final(self)),
            r matches Ok(id) ==> (id.0 as int) < final(self).document.nodes@.len(),
            r matches Ok(id) ==> final(self).document.nodes@[id.0 as int].kind is Mapping,
            r is Ok ==> final(self).pos > old(self).pos,
        decreases old(self).tokens@.len() - old(self).pos, 2nat,
    {
        let mut entries: Vec<(NodeId, NodeId)> = Vec::new();
        let mut first_span: Option<Span> = None;
        let mut last_end: usize = 0;
        let mut entry_col: Option<usize> = None;
        proof {
            lemma_zero_on_boundary(self.source@);
            lemma_origin_at(self.source@);
        }
        loop
            invariant
                self.inv(),
                old(self).keeps(self),
                entries_below(entries@, self.document.nodes@.len() as int),
                on_boundary(self.source@, last_end as int),
                first_span matches Some(sp) ==> span_in(self.source@, sp) && span_at(self.source@, sp),
                entry_col is None ==> self.pos == old(self).pos,
                entry_col is Some ==> self.pos > old(self).pos,
                old(self).pos < old(self).tokens@.len(),
                old(self).class_here() == Class::MappingKey || old(self).class_here() == Class::Scalar,
            ensures
                self.inv(),
                old(self).keeps(self),
                entries_below(entries@, self.document.nodes@.len() as int),
                on_boundary(self.source@, last_end as int),
                first_span matches Some(sp) ==> span_in(self.source@, sp) && span_at(self.source@, sp),
                self.pos > old(self).pos,
            decreases self.tokens@.len() - self.pos,
        {
            self.skip_trivia();
            let (class, key_span) = match self.peek() {
                Some(cs) => cs,
                None => {
                    break;
                },
            };
            if !(class == Class::MappingKey || class == Class::Scalar) {
                break;
            }
            match entry_col {
                Some(ec) => {
                    if key_span.column != ec {
                        break;
                    }
                },
                None => {
                    entry_col = Some(key_span.column);
                },
            }
            if first_span.is_none() {
                first_span = Some(key_span);
            }
            let ghost entry_pos = self.pos;
            let key = if class == Class::MappingKey {
                self.advance();
                self.skip_trivia();
                self.parse_value()?
            } else {
                let k = self.scalar_node()?;
                self.advance();
                k
            };
            self.skip_trivia();
            let colon_span = match self.peek() {
                Some((Class::Colon, s)) => s,
                Some((_, s)) => {
                    return Err(self.error_at_offset(s.start, ErrorKind::UnexpectedCharacter, "expected colon after mapping key"));
                },
                None => {
                    return Err(self.error(ErrorKind::UnexpectedEof, "expected colon after mapping key"));
                },
            };
            self.advance();
            self.skip_trivia();
            let value = if self.value_follows_key(key_span.column, key_span.line) {
                self.parse_value()?
            } else {
                self.add_null_node(colon_span)?
            };
            if let Some(s) = self.document.span(key) {
                if s.end > last_end {
                    last_end = s.end;
                }
            }
            if let Some(s) = self.document.span(value) {
                if s.end > last_end {
                    last_end = s.end;
                }
            }
            entries.push((key, value));
        }
        let entries = self.apply_merge_keys(entries)?;
        let span = match first_span {
            Some(s) => Span::new(s.start, if last_end > s.end { last_end } else { s.end }, s.line, s.column),
            None => Span::new(0, 0, 1, 1),
        };
        let node = self.push_node(NodeKind::Mapping(entries), Some(span))?;
        self.attach_trivia(node);
        Ok(node)
    }

    fn parse_flow_sequence(&mut self) -> (r: Result<NodeId, YamlError>)
        requires
            old(self).inv(),
            old(self).pos < old(self).tokens@.len(),
        ensures
            final(self).inv(),
            old(self).keeps(final(self)),
            r matches Ok(id) ==> (id.0 as int) < final(self).document.nodes@.len(),
            r matches Ok(id) ==> final(self).document.nodes@[id.0 as int].kind is Sequence,
            r is Ok ==> final(self).pos > old(self).pos,
        decreases old(self).tokens@.len() - old(self).pos, 2nat,
    {
        let start_span = match self.peek() {
            Some((_, s)) => s,
            None => Span::new(0, 0, 1, 1),
        };
        self.advance();
        let mut items: Vec<NodeId> = Vec::new();
        let mut end = start_span.end;
        self.skip_trivia();
        loop
            invariant
                self.inv(),
                old(self).keeps(self),
                self.pos > old(self).pos,
                ids_below(items@, self.document.nodes@.len() as int),
                start_span == old(self).tokens@[old(self).pos as int].span,
                start_span.start <= end,
                on_boundary(self.source@, end as int),
            decreases self.tokens@.len() - self.pos,
        {
            let (class, span) = match self.peek() {
                Some(cs) => cs,
                None => {
                    break;
                },
            };
            if class == Class::RightBracket {
                end = span.end;
                self.advance();
                break;
            }
            if class == Class::Comma {
                self.advance();
                self.skip_trivia();
            } else {
                let item = self.parse_value()?;
                if let Some(s) = self.document.span(item) {
                    if s.end > end {
                        end = s.end;
                    }
                }
                items.push(item);
                self.skip_trivia();
                match self.peek() {
                    Some((Class::Comma, _)) | Some((Class::RightBracket, _)) => {},
                    Some((_, s)) => {
                        return Err(self.error_at_offset(s.start, ErrorKind::UnexpectedCharacter, "expected comma or ] in flow sequence"));
                    },
                    None => {},
                }
            }
        }
        let span = Span::new(start_span.start, end, start_span.line, start_span.column);
        let node = self.push_node(NodeKind::Sequence(items), Some(span))?;
        self.attach_trivia(node);
        Ok(node)
    }

    fn parse_flow_mapping(&mut self) -> (r: Result<NodeId, YamlError>)
        requires
            old(self).inv(),
            old(self).pos < old(self).tokens@.len(),
        ensures
            final(self).inv(),
            old(self).keeps(final(self)),
            r matches Ok(id) ==> (id.0 as int) < final(self).document.nodes@.len(),
            r matches Ok(id) ==> final(self).document.nodes@[id.0 as int].kind is Mapping,
            r is Ok ==> final(self).pos > old(self).pos,
        decreases old(self).tokens@.len() - old(self).pos, 2nat,
    {
        let start_span = match self.peek() {
            Some((_, s)) => s,
            None => Span::new(0, 0, 1, 1),
        };
        self.advance();
        let mut entries: Vec<(NodeId, NodeId)> = Vec::new();
        let mut end = start_span.end;
        self.skip_trivia();
        loop
            invariant
                self.inv(),
                old(self).keeps(self),
                self.pos > old(self).pos,
                entries_below(entries@, self.document.nodes@.len() as int),
                start_span == old(self).tokens@[old(self).pos as int].span,
                start_span.start <= end,
                on_boundary(self.source@, end as int),
            decreases self.tokens@.len() - self.pos,
        {
            let (class, span) = match self.peek() {
                Some(cs) => cs,
                None => {
                    break;
                },
            };
            if class == Class::RightBrace {
                end = span.end;
                self.advance();
                break;
            }
            if class == Class::Comma {
                self.advance();
                self.skip_trivia();
            } else {
                let key = self.parse_flow_key()?;
                self.skip_trivia();
                let colon_span = match self.peek() {
                    Some((Class::Colon, s)) => s,
                    Some((_, s)) => {
                        return Err(self.error_at_offset(s.start, ErrorKind::UnexpectedCharacter, "expected colon after mapping key"));
                    },
                    None => {
                        return Err(self.error(ErrorKind::UnexpectedEof, "expected colon after mapping key"));
                    },
                };
                self.advance();
                self.skip_trivia();
                let value = match self.peek() {
                    Some((Class::Comma, _)) | Some((Class::RightBrace, _)) => self.add_null_node(colon_span)?,
                    Some(_) => self.parse_value()?,
                    None => self.add_null_node(colon_span)?,
                };
                if let Some(s) = self.document.span(key) {
                    if s.end > end {
                        end = s.end;
                    }
                }
                if let Some(s) = self.document.span(value) {
                    if s.end > end {
                        end = s.end;
                    }
                }
                entries.push((key, value));
                self.skip_trivia();
                match self.peek() {
                    Some((Class::Comma, _)) | Some((Class::RightBrace, _)) => {},
                    Some((_, s)) => {
                        return Err(self.error_at_offset(s.start, ErrorKind::UnexpectedCharacter, "expected comma or } in flow mapping"));
                    },
                    None => {},
                }
            }
        }
        let entries = self.apply_merge_keys(entries)?;
        let span = Span::new(start_span.start, end, start_span.line, start_span.column);
        let node = self.push_node(NodeKind::Mapping(entries), Some(span))?;
        self.attach_trivia(node);
        Ok(node)
    }

    fn parse_flow_key(&mut self) -> (r: Result<NodeId, YamlError>)
        requires
            old(self).inv(),
        ensures
            final(self).inv(),
            old(self).keeps(final(self)),
            r matches Ok(id) ==> (id.0 as int) < final(self).document.nodes@.len(),
            r is Ok ==> final(self).pos > old(self).pos,
        decreases old(self).tokens@.len() - old(self).pos, 1nat,
    {
        self.skip_trivia();
        let (class, span) = match self.peek() {
            Some(cs) => cs,
            None => {
                return Err(self.error(ErrorKind::UnexpectedEof, "expected key in flow mapping"));
            },
        };
        match class {
            Class::Scalar => {
                let node = self.scalar_node()?;
                self.advance();
                Ok(node)
            },
            Class::Anchor => {
                let name = match &self.tokens[self.pos].token {
                    ParserToken::Anchor(name) => name.clone(),
                    _ => String::new(),
                };
                self.advance();
                self.skip_trivia();
                let key = self.parse_flow_key()?;
                self.register_anchor(&name, key, span)?;
                self.set_anchor(key, name);
                Ok(key)
            },
            Class::Tag => {
                let tag = match &self.tokens[self.pos].token {
                    ParserToken::Tag(t) => t.clone(),
                    _ => String::new(),
                };
                self.advance();
                self.skip_trivia();
                let key = self.parse_flow_key()?;
                self.set_tag(key, tag);
                Ok(key)
            },
            _ => Err(self.error_at_offset(span.start, ErrorKind::UnexpectedCharacter, "invalid key in flow mapping")),
        }
    }

    /// Whether node `id` is the merge key `<<`.
    fn is_merge_key(&self, id: NodeId) -> (r: bool)
        ensures
            r == ((id.0 as int) < self.document.nodes@.len() && self.document.nodes@[id.0 as int].kind is Scalar
                && self.document.nodes@[id.0 as int].kind->Scalar_0.raw@ == "<<"@),
    {
        match self.document.node(id) {
            Some(n) => match &n.kind {
                NodeKind::Scalar(s) => same_text(s.raw.as_str(), "<<"),
                _ => false,
            },
            None => false,
        }
    }

    /// The spelling of a scalar key.
    fn key_repr(&self, id: NodeId) -> (r: Option<String>)
        ensures
            opt_text(r) == (if (id.0 as int) < self.document.nodes@.len() && self.document.nodes@[id.0 as int].kind is Scalar {
                Some(self.document.nodes@[id.0 as int].kind->Scalar_0.raw@)
            } else {
                None::<Seq<char>>
            }),
    {
        match self.document.node(id) {
            Some(n) => match &n.kind {
                NodeKind::Scalar(s) => Some(s.raw.clone()),
                _ => None,
            },
            None => None,
        }
    }

    /// Follows an alias chain to its final non-alias node. Aliases refer only to earlier
    /// nodes, so the chain strictly descends and ends.
    fn deref_alias(&self, id: NodeId) -> (r: NodeId)
        requires
            self.document.wf(),
        ensures
            (id.0 as int) < self.document.nodes@.len() ==> (r.0 as int) < self.document.nodes@.len(),
            r == deref_spec(self.document.nodes@, id),
    {
        let mut cur = id;
        loop
            invariant
                self.document.wf(),
                (id.0 as int) < self.document.nodes@.len() ==> (cur.0 as int) < self.document.nodes@.len(),
                deref_spec(self.document.nodes@, cur) == deref_spec(self.document.nodes@, id),
            ensures
                (id.0 as int) < self.document.nodes@.len() ==> (cur.0 as int) < self.document.nodes@.len(),
                cur == deref_spec(self.document.nodes@, id),
            decreases cur.0,
        {
            let i = cur.get() as usize;
            if i >= self.document.nodes.len() {
                break;
            }
            match &self.document.nodes[i].kind {
                NodeKind::Alias(target) => {
                    assert(refs_below(self.document.nodes@[i as int].kind, i as int));
                    cur = *target;
                },
                _ => {
                    break;
                },
            }
        }
        cur
    }

    /// The entries a merge value contributes: those of a mapping, or of each mapping of a
    /// sequence, aliases followed.
    fn merge_sources(&self, value: NodeId) -> (r: Result<Vec<(NodeId, NodeId)>, YamlError>)
        requires
            self.inv(),
            (value.0 as int) < self.document.nodes@.len(),
        ensures
            r matches Ok(es) ==> entries_below(es@, self.document.nodes@.len() as int),
            match merge_source_spec(self.document.nodes@, value) {
                Some(es) => r matches Ok(v) && v@ == es,
                None => r matches Err(e) && e.kind == ErrorKind::InvalidMergeKey,
            },
    {
        let offset = match self.document.span(value) {
            Some(s) => s.start,
            None => 0,
        };
        let resolved = self.deref_alias(value);
        let i = resolved.get() as usize;
        match &self.document.nodes[i].kind {
            NodeKind::Mapping(entries) => {
                assert(refs_below(self.document.nodes@[i as int].kind, i as int));
                let es = copy_entries(entries);
                Ok(es)
            },
            NodeKind::Sequence(items) => {
                assert(refs_below(self.document.nodes@[i as int].kind, i as int));
                let mut out: Vec<(NodeId, NodeId)> = Vec::new();
                let mut j: usize = 0;
                while j < items.len()
                    invariant
                        self.inv(),
                        i < self.document.nodes@.len(),
                        self.document.nodes@[i as int].kind == NodeKind::Sequence(*items),
                        ids_below(items@, self.document.nodes@.len() as int),
                        j <= items@.len(),
                        entries_below(out@, self.document.nodes@.len() as int),
                        merged_items(self.document.nodes@, items@, j as int) == Some(out@),
                        merge_source_spec(self.document.nodes@, value) == merged_items(self.document.nodes@, items@, items@.len() as int),
                    decreases items@.len() - j,
                {
                    let item_resolved = self.deref_alias(items[j]);
                    let m = item_resolved.get() as usize;
                    match &self.document.nodes[m].kind {
                        NodeKind::Mapping(entries) => {
                            assert(refs_below(self.document.nodes@[m as int].kind, m as int));
                            let ghost out0 = out@;
                            let mut t: usize = 0;
                            while t < entries.len()
                                invariant
                                    self.inv(),
                                    m < self.document.nodes@.len(),
                                    entries_below(entries@, self.document.nodes@.len() as int),
                                    t <= entries@.len(),
                                    entries_below(out@, self.document.nodes@.len() as int),
                                    out@ == out0 + entries@.take(t as int),
                                decreases entries@.len() - t,
                            {
                                out.push(entries[t]);
                                t = t + 1;
                                assert(out@ =~= out0 + entries@.take(t as int));
                            }
                            assert(entries@.take(entries@.len() as int) =~= entries@);
                        },
                        _ => {
                            proof {
                                lemma_merged_none(self.document.nodes@, items@, j as int + 1, items@.len() as int);
                            }
                            return Err(self.error_at_offset(offset, ErrorKind::InvalidMergeKey, "merge value sequence must contain only mappings"));
                        },
                    }
                    j = j + 1;
                }
                Ok(out)
            },
            _ => Err(self.error_at_offset(offset, ErrorKind::InvalidMergeKey, "merge key value must be a mapping or sequence of mappings")),
        }
    }

    /// Expands `<<` merge-key entries: explicit keys always win, and among several merge
    /// sources an earlier one wins over a later one.
    fn apply_merge_keys(&self, entries: Vec<(NodeId, NodeId)>) -> (r: Result<Vec<(NodeId, NodeId)>, YamlError>)
        requires
            self.inv(),
            entries_below(entries@, self.document.nodes@.len() as int),
        ensures
            r matches Ok(es) ==> entries_below(es@, self.document.nodes@.len() as int),
            !self.merge_keys ==> (r matches Ok(es) && es@ == entries@),
            r matches Err(e) ==> e.kind == ErrorKind::InvalidMergeKey && self.merge_keys && exists|i: int|
                0 <= i < entries@.len() && merge_key_at(self.document.nodes@, (#[trigger] entries@[i]).0)
                    && merge_source_spec(self.document.nodes@, entries@[i].1) is None,
    {
        if !self.merge_keys {
            return Ok(entries);
        }
        let n = self.document.nodes.len();
        let mut explicit: Vec<(NodeId, NodeId)> = Vec::new();
        let mut merge_values: Vec<NodeId> = Vec::new();
        let mut i: usize = 0;
        while i < entries.len()
            invariant
                self.inv(),
                n == self.document.nodes@.len(),
                entries_below(entries@, n as int),
                i <= entries@.len(),
                entries_below(explicit@, n as int),
                ids_below(merge_values@, n as int),
                forall|k: int| 0 <= k < merge_values@.len() ==> from_merge_entry(self.document.nodes@, entries@, #[trigger] merge_values@[k]),
            decreases entries@.len() - i,
        {
            let (k, v) = entries[i];
            if self.is_merge_key(k) {
                let ghost before = merge_values@;
                merge_values.push(v);
                assert(entries@[i as int] == (k, v));
                assert forall|q: int| 0 <= q < merge_values@.len() implies from_merge_entry(self.document.nodes@, entries@, #[trigger] merge_values@[q]) by {
                    if q < before.len() {
                        assert(merge_values@[q] == before[q]);
                    }
                }
            } else {
                explicit.push((k, v));
            }
            i = i + 1;
        }
        if merge_values.len() == 0 {
            return Ok(explicit);
        }
        let mut seen_keys: Vec<String> = Vec::new();
        let mut e: usize = 0;
        while e < explicit.len()
            invariant
                e <= explicit@.len(),
            decreases explicit@.len() - e,
        {
            if let Some(repr) = self.key_repr(explicit[e].0) {
                seen_keys.push(repr);
            }
            e = e + 1;
        }
        let mut merged: Vec<(NodeId, NodeId)> = Vec::new();
        let mut m: usize = 0;
        while m < merge_values.len()
            invariant
                self.inv(),
                n == self.document.nodes@.len(),
                ids_below(merge_values@, n as int),
                m <= merge_values@.len(),
                entries_below(merged@, n as int),
                self.merge_keys,
                forall|k: int| 0 <= k < merge_values@.len() ==> from_merge_entry(self.document.nodes@, entries@, #[trigger] merge_values@[k]),
            decreases merge_values@.len() - m,
        {
            let sources = match self.merge_sources(merge_values[m]) {
                Ok(v) => v,
                Err(e) => {
                    assert(from_merge_entry(self.document.nodes@, entries@, merge_values@[m as int]));
                    return Err(e);
                },
            };
            let mut s: usize = 0;
            while s < sources.len()
                invariant
                    self.inv(),
                    n == self.document.nodes@.len(),
                    entries_below(sources@, n as int),
                    s <= sources@.len(),
                    entries_below(merged@, n as int),
                decreases sources@.len() - s,
            {
                let (k, v) = sources[s];
                let mut keep = true;
                if let Some(repr) = self.key_repr(k) {
                    if contains_text(&seen_keys, repr.as_str()) {
                        keep = false;
                    } else {
                        seen_keys.push(repr);
                    }
                }
                if keep {
                    merged.push((k, v));
                }
                s = s + 1;
            }
            m = m + 1;
        }
        let mut t: usize = 0;
        while t < merged.len()
            invariant
                t <= merged@.len(),
                entries_below(merged@, n as int),
                entries_below(explicit@, n as int),
            decreases merged@.len() - t,
        {
            explicit.push(merged[t]);
            t = t + 1;
        }
        Ok(explicit)
    }

    /// The token stream holds nothing but its end, and nothing has been parsed yet.
    spec fn only_end(&self) -> bool {
        &&& self.pos == 0
        &&& self.tokens@.len() == 1
        &&& class_spec(self.tokens@[0].token) == Class::Eof
        &&& self.document.nodes@.len() == 0
    }

    /// Parses the whole stream.
    #[verifier::rlimit(40)]
    fn parse(self) -> (r: Result<Document, YamlError>)
        requires
            self.inv(),
            self.document.documents@.len() == 0,
        ensures
            r matches Ok(doc) ==> doc.wf() && doc.documents@.len() >= 1 && (self.version_explicit
                ==> doc.version == self.document.version) && spans_ok(self.source@, doc.nodes@)
                && positions_ok(self.source@, doc.nodes@),
            self.only_end() ==> (r matches Ok(doc) && doc.documents@.len() == 1 && doc.nodes@.len() == 1 && (
            doc.nodes@[0].kind matches NodeKind::Scalar(sc) && sc.value is Null)),
    {
        let mut p = self;
        let ghost end_only = p.only_end();
        let ghost source = p.source@;
        let ghost explicit_version = p.version_explicit;
        let ghost v0 = p.document.version;
        p.skip_trivia();
        p.consume_directives()?;
        loop
            invariant
                p.inv(),
                p.source@ == source,
                p.version_explicit == explicit_version,
                explicit_version ==> p.document.version == v0,
                end_only == self.only_end(),
                end_only ==> p.pos == 0 && p.tokens@.len() == 1 && class_spec(p.tokens@[0].token) == Class::Eof
                    && p.document.nodes@.len() == 0 && p.document.documents@.len() == 0,
            decreases p.tokens@.len() - p.pos,
        {
            if p.at_eof() {
                break;
            }
            let ghost before = p.pos;
            let doc_start_span = p.maybe_consume_document_start();
            p.skip_trivia();
            let root = p.parse_document(doc_start_span)?;
            let ghost nodes = p.document.nodes@;
            p.document.documents.push(root);
            assert forall|d: int| 0 <= d < p.document.documents@.len() implies (
            #[trigger] p.document.documents@[d]).0 < p.document.nodes@.len() by {
                if d < p.document.documents@.len() - 1 {
                }
            }
            p.skip_trivia();
            p.consume_document_end();
            p.skip_trivia();
            p.consume_directives()?;
            assert(p.pos > before);
            if !p.at_eof() && !p.at_document_start() {
                return Err(p.error(ErrorKind::TrailingContent, "expected '---' before next document"));
            }
        }
        if p.document.documents.len() == 0 {
            proof {
                lemma_zero_on_boundary(p.source@);
                lemma_origin_at(p.source@);
            }
            let root = p.add_null_node(Span::new(0, 0, 1, 1))?;
            p.document.documents.push(root);
        }
        Ok(p.document)
    }
}

fn copy_tag(tag: &Option<String>) -> (r: Option<String>)
    ensures
        opt_text(r) == opt_text(*tag),
{
    match tag {
        Some(t) => Some(t.clone()),
        None => None,
    }
}

/// Whether `v` holds a string with the characters of `t`.
fn contains_text(v: &Vec<String>, t: &str) -> (r: bool)
    ensures
        r == exists|j: int| 0 <= j < v@.len() && (#[trigger] v@[j])@ == t@,
{
    let mut i: usize = 0;
    while i < v.len()
        invariant
            i <= v@.len(),
            forall|j: int| 0 <= j < i ==> (#[trigger] v@[j])@ != t@,
        decreases v@.len() - i,
    {
        if same_text(v[i].as_str(), t) {
            return true;
        }
        i = i + 1;
    }
    false
}

/// The words of `text` separated by whitespace, as `str::split_whitespace` yields them.
pub(crate) fn whitespace_words(text: &str) -> (r: Vec<Vec<char>>)
    ensures
        words_view(r@) == words_from(text@, 0, Seq::empty(), Seq::empty()),
{
    let chars = chars_of(text);
    let mut words: Vec<Vec<char>> = Vec::new();
    let mut cur: Vec<char> = Vec::new();
    let mut i: usize = 0;
    assert(words_view(words@) =~= Seq::<Seq<char>>::empty());
    assert(cur@ =~= Seq::<char>::empty());
    while i < chars.len()
        invariant
            i <= chars@.len(),
            chars@ == text@,
            words_from(text@, 0, Seq::empty(), Seq::empty()) == words_from(text@, i as int, cur@, words_view(words@)),
        decreases chars@.len() - i,
    {
        let ghost acc = words_view(words@);
        let ghost cw = cur@;
        assert(words_from(text@, i as int, cw, acc) == if crate::text::unicode_whitespace(text@[i as int]) {
            words_from(text@, i + 1, Seq::empty(), if cw.len() > 0 { acc.push(cw) } else { acc })
        } else {
            words_from(text@, i + 1, cw.push(text@[i as int]), acc)
        });
        if is_whitespace(chars[i]) {
            if cur.len() > 0 {
                let ghost before = words@;
                let ghost w = cur@;
                words.push(cur);
                assert(words_view(words@) =~= words_view(before).push(w));
                cur = Vec::new();
            }
            assert(cur@ =~= Seq::<char>::empty());
        } else {
            cur.push(chars[i]);
        }
        i = i + 1;
    }
    if cur.len() > 0 {
        let ghost before = words@;
        let ghost w = cur@;
        words.push(cur);
        assert(words_view(words@) =~= words_view(before).push(w));
    }
    words
}

/// Whether a scalar of `style` and `tag` stays a string rather than resolving: quoted and
/// block scalars, and those tagged `!str`.
pub open spec fn stays_string(style: ScalarStyle, tag: Option<Seq<char>>) -> bool {
    style != ScalarStyle::Plain || tag == Some("!str"@)
}

/// Whether node `id` is a `<<` merge key.
pub open spec fn merge_key_at(nodes: Seq<NodeData>, id: NodeId) -> bool {
    (id.0 as int) < nodes.len() && nodes[id.0 as int].kind is Scalar && nodes[id.0 as int].kind->Scalar_0.raw@ == "<<"@
}

/// Whether `v` is the value of some `<<` entry of `entries`.
pub open spec fn from_merge_entry(nodes: Seq<NodeData>, entries: Seq<(NodeId, NodeId)>, v: NodeId) -> bool {
    exists|q: int| 0 <= q < entries.len() && merge_key_at(nodes, (#[trigger] entries[q]).0) && entries[q].1 == v
}

/// The entries the merge values `items[..j]` contribute, each followed through aliases;
/// `None` when one of them is not a mapping.
pub open spec fn merged_items(nodes: Seq<NodeData>, items: Seq<NodeId>, j: int) -> Option<Seq<(NodeId, NodeId)>>
    decreases j,
{
    if j <= 0 {
        Some(Seq::empty())
    } else {
        match merged_items(nodes, items, j - 1) {
            None => None,
            Some(acc) => {
                let d = deref_spec(nodes, items[j - 1]);
                if (d.0 as int) < nodes.len() && nodes[d.0 as int].kind is Mapping {
                    Some(acc + nodes[d.0 as int].kind->Mapping_0@)
                } else {
                    None
                }
            },
        }
    }
}

/// The entries a `<<` value contributes, aliases followed: a mapping's entries, or those of
/// each mapping of a sequence in order; `None` for anything else.
pub open spec fn merge_source_spec(nodes: Seq<NodeData>, value: NodeId) -> Option<Seq<(NodeId, NodeId)>> {
    let d = deref_spec(nodes, value);
    if (d.0 as int) < nodes.len() {
        match nodes[d.0 as int].kind {
            NodeKind::Mapping(e) => Some(e@),
            NodeKind::Sequence(items) => merged_items(nodes, items@, items@.len() as int),
            _ => None,
        }
    } else {
        None
    }
}

proof fn lemma_merged_none(nodes: Seq<NodeData>, items: Seq<NodeId>, j: int, k: int)
    requires
        1 <= j <= k,
        merged_items(nodes, items, j) is None,
    ensures
        merged_items(nodes, items, k) is None,
    decreases k - j,
{
    if j < k {
        lemma_merged_none(nodes, items, j, k - 1);
    }
}

/// The characters of each word.
pub open spec fn words_view(ws: Seq<Vec<char>>) -> Seq<Seq<char>> {
    ws.map_values(|w: Vec<char>| w@)
}

/// The whitespace-separated words of `s` from position `i` on, after the words `acc` and the
/// word `cur` begun so far.
pub open spec fn words_from(s: Seq<char>, i: int, cur: Seq<char>, acc: Seq<Seq<char>>) -> Seq<Seq<char>>
    decreases s.len() - i,
{
    if i < 0 || i >= s.len() {
        if cur.len() > 0 { acc.push(cur) } else { acc }
    } else if crate::text::unicode_whitespace(s[i]) {
        words_from(s, i + 1, Seq::empty(), if cur.len() > 0 { acc.push(cur) } else { acc })
    } else {
        words_from(s, i + 1, cur.push(s[i]), acc)
    }
}

/// The node an alias chain from `id` ends at: the first node that is not an alias (or does not
/// exist).
pub open spec fn deref_spec(nodes: Seq<NodeData>, id: NodeId) -> NodeId
    decreases id.0,
{
    if (id.0 as int) < nodes.len() {
        match nodes[id.0 as int].kind {
            NodeKind::Alias(t) => if t.0 < id.0 { deref_spec(nodes, t) } else { id },
            _ => id,
        }
    } else {
        id
    }
}

/// Whether the token of class `c` at `span` starts a value for a mapping key at
/// `key_col`/`key_line`.
pub open spec fn follows_key(c: Class, span: Span, key_col: usize, key_line: usize) -> bool {
    if span.line == key_line {
        !(c == Class::DocumentEnd || c == Class::DocumentStart)
    } else {
        match c {
            Class::DocumentStart | Class::DocumentEnd => false,
            Class::SequenceEntry => span.column >= key_col,
            _ => span.column > key_col,
        }
    }
}

/// Whether the token of class `c` at `span` starts a value after a sequence dash at
/// `dash_col`/`dash_line`.
pub open spec fn follows_dash(c: Class, span: Span, dash_col: usize, dash_line: usize) -> bool {
    if span.line == dash_line {
        !(c == Class::Comma || c == Class::RightBrace || c == Class::RightBracket)
    } else {
        match c {
            Class::DocumentStart | Class::DocumentEnd => false,
            _ => span.column > dash_col,
        }
    }
}

/// A float text that reads as NaN: `nan` in any case, with an optional sign.
pub open spec fn nan_text(t: Seq<char>) -> bool {
    let start: int = if t.len() > 0 && (t[0] == '+' || t[0] == '-') { 1 } else { 0 };
    &&& t.len() == start + 3
    &&& (t[start] == 'n' || t[start] == 'N')
    &&& (t[start + 1] == 'a' || t[start + 1] == 'A')
    &&& (t[start + 2] == 'n' || t[start + 2] == 'N')
}

/// Two resolutions of the same scalar agree: the same variant and value, a float by its text
/// unless that text is NaN, which equals nothing.
pub open spec fn values_agree_spec(a: ScalarValue, b: ScalarValue) -> bool {
    match (a, b) {
        (ScalarValue::Null, ScalarValue::Null) => true,
        (ScalarValue::Bool(x), ScalarValue::Bool(y)) => x == y,
        (ScalarValue::Int(x), ScalarValue::Int(y)) => x == y,
        (ScalarValue::Float(x), ScalarValue::Float(y)) => x@ == y@ && !nan_text(x@),
        (ScalarValue::String(x), ScalarValue::String(y)) => x@ == y@,
        (ScalarValue::Timestamp(x), ScalarValue::Timestamp(y)) => x@ == y@,
        _ => false,
    }
}

/// Whether two resolutions of the same scalar agree, comparing floats by value: the same text
/// reads as the same double, except NaN, which equals nothing.
pub fn values_agree(a: &ScalarValue, b: &ScalarValue) -> (r: bool)
    ensures
        r == values_agree_spec(*a, *b),
{
    match (a, b) {
        (ScalarValue::Null, ScalarValue::Null) => true,
        (ScalarValue::Bool(x), ScalarValue::Bool(y)) => *x == *y,
        (ScalarValue::Int(x), ScalarValue::Int(y)) => *x == *y,
        (ScalarValue::Float(x), ScalarValue::Float(y)) => same_text(x.as_str(), y.as_str()) && !is_nan_text(x.as_str()),
        (ScalarValue::String(x), ScalarValue::String(y)) => same_text(x.as_str(), y.as_str()),
        (ScalarValue::Timestamp(x), ScalarValue::Timestamp(y)) => same_text(x.as_str(), y.as_str()),
        _ => false,
    }
}

/// Whether a float's text reads as NaN: `nan` in any case, with an optional sign.
fn is_nan_text(t: &str) -> (r: bool)
    ensures
        r == nan_text(t@),
{
    let c = chars_of(t);
    let start: usize = if c.len() > 0 && (c[0] == '+' || c[0] == '-') { 1 } else { 0 };
    c.len() == start + 3 && (c[start] == 'n' || c[start] == 'N') && (c[start + 1] == 'a' || c[start + 1] == 'A') && (c[start + 2] == 'n' || c[start + 2] == 'N')
}

/// Parses a YAML stream into a document arena. `floats` decides YAML 1.1 sexagesimal floats.
/// On success the arena is well formed (every node refers only to earlier nodes) and holds at
/// least one document; a version fixed by the options is the document's version; every node
/// span is a byte range of `source` between character boundaries, and carries the line and
/// column of its start.
pub fn parse_with<R: SexagesimalFloats>(source: &str, options: &ParserOptions, floats: &R) -> (r: Result<Document, YamlError>)
    requires
        byte_len(source@) <= isize::MAX,
    ensures
        r matches Ok(doc) ==> doc.wf() && doc.documents@.len() >= 1 && (options.yaml_version matches Some(v) ==> doc.version == v)
            && spans_ok(source@, doc.nodes@) && positions_ok(source@, doc.nodes@),
        source@.len() == 0 ==> (r matches Ok(doc) && doc.documents@.len() == 1 && doc.nodes@.len() == 1 && (
        doc.nodes@[0].kind matches NodeKind::Scalar(sc) && sc.value is Null)),
        crate::lexer_spec::lex_spec(source@).1 matches Some(le) ==> (r matches Err(e) && crate::lexer_spec::error_matches(
            e,
            source@,
            le,
        )),
{
    proof {
        if source@.len() == 0 {
            reveal_with_fuel(crate::lexer_spec::lex_from, 2);
            assert(crate::lexer_spec::lex_spec(source@).1 is None);
            assert(crate::lexer_spec::lex_spec(source@).0.len() == 1);
        }
    }
    let tokens = match lex_to_parser_tokens(source) {
        Ok(t) => t,
        Err(e) => {
            return Err(e);
        },
    };
    let parser = Parser::new(source, tokens, options, floats);
    parser.parse()
}

} // verus!
