//! Event-driven parsing straight from source.
//!
//! [`EventParser`] is a pull-based, resumable parser: it reads tokens lazily from
//! [`Lexer::next_token`], never holds more than two of them, and emits self-contained [`Event`]s
//! without building a document arena. Its memory is bounded by the nesting depth plus the anchors
//! seen, not by the number of nodes.
//!
//! Unlike the arena parser, merge keys (`<<`) are rejected with [`ErrorKind::InvalidMergeKey`]
//! (unless [`ParserOptions::merge_keys`] is off, when `<<` is an ordinary key), a collection's
//! event span is the span of its opening token, and aliases carry the anchor's name.
//!
//! The stream is well formed by construction: every `*Start` is matched by exactly one
//! corresponding `*End`, and the events handed out so far always form a well-nested prefix.
use vstd::prelude::*;
use crate::diagnostics::{ErrorKind, YamlError};
use crate::lexer::Lexer;
use crate::lexer_spec::BlockIndicator;
use crate::node::{ParserOptions, ScalarStyle, ScalarValue};
use crate::parser::{class_of, class_spec, trivia_class, values_agree, whitespace_words, Class, SexagesimalFloats};
use crate::parser_tokens::{convert_token, ParserToken, TokenWithSpan};
use crate::resolve::resolve_scalar;
use crate::span::Span;
use crate::text::{byte_len, chars_of, same_text, string_from_chars, trim_chars};
use crate::version::{version_named, YamlVersion};

verus! {

/// Metadata carried by a collection's start event.
#[derive(Clone, Debug, PartialEq, Eq)]
pub struct NodeMeta {
    /// The anchor declared on the node, if any (`&name`).
    pub anchor: Option<String>,
    /// The explicit tag declared on the node, if any (`!tag`).
    pub tag: Option<String>,
    /// The span of the collection's opening token.
    pub span: Span,
}

/// A scalar node, with its value already implicitly resolved.
#[derive(Clone, Debug, PartialEq, Eq)]
pub struct ScalarEvent {
    /// The resolved value (only plain scalars type-resolve; quoted and block scalars stay
    /// strings).
    pub value: ScalarValue,
    /// The quoting or block style the scalar was written in.
    pub style: ScalarStyle,
    /// The source spelling of the scalar, without surrounding quotes.
    pub raw: String,
    /// The anchor declared on the scalar, if any.
    pub anchor: Option<String>,
    /// The explicit tag declared on the scalar, if any.
    pub tag: Option<String>,
    pub span: Span,
}

/// An alias node (`*name`).
#[derive(Clone, Debug, PartialEq, Eq)]
pub struct AliasEvent {
    /// The name being aliased; the anchor's own event came earlier in the stream.
    pub name: String,
    /// An anchor declared on the alias itself, if any (`&x *y`).
    pub anchor: Option<String>,
    /// The explicit tag declared on the alias, if any.
    pub tag: Option<String>,
    pub span: Span,
}

/// One step of the event stream.
#[derive(Clone, Debug, PartialEq, Eq)]
pub enum Event {
    StreamStart,
    StreamEnd,
    DocumentStart,
    DocumentEnd,
    MappingStart(NodeMeta),
    MappingEnd,
    SequenceStart(NodeMeta),
    SequenceEnd,
    Scalar(ScalarEvent),
    Alias(AliasEvent),
}

/// What a `*Start` event opened and its `*End` event must close.
#[derive(Clone, Copy, Debug, PartialEq, Eq, Structural)]
pub enum Opener {
    Stream,
    Document,
    Mapping,
    Sequence,
}

/// Whether a node may stand under the innermost open construct: inside a document, a mapping
/// or a sequence.
pub open spec fn holds_nodes(stack: Seq<Opener>) -> bool {
    stack.len() > 0 && stack.last() != Opener::Stream
}

/// The constructs open after event `e`, given those open before it; `None` when `e` is out of
/// place: a stream opens only at the outside, a document only directly in the stream, a node
/// only inside a document or collection, and every end closes the innermost construct of its
/// own kind.
pub open spec fn after_event(stack: Seq<Opener>, e: Event) -> Option<Seq<Opener>> {
    match e {
        Event::StreamStart => if stack.len() == 0 { Some(stack.push(Opener::Stream)) } else { None },
        Event::StreamEnd => if stack.len() > 0 && stack.last() == Opener::Stream {
            Some(stack.drop_last())
        } else {
            None
        },
        Event::DocumentStart => if stack.len() > 0 && stack.last() == Opener::Stream {
            Some(stack.push(Opener::Document))
        } else {
            None
        },
        Event::DocumentEnd => if stack.len() > 0 && stack.last() == Opener::Document {
            Some(stack.drop_last())
        } else {
            None
        },
        Event::MappingStart(_) => if holds_nodes(stack) { Some(stack.push(Opener::Mapping)) } else { None },
        Event::MappingEnd => if stack.len() > 0 && stack.last() == Opener::Mapping {
            Some(stack.drop_last())
        } else {
            None
        },
        Event::SequenceStart(_) => if holds_nodes(stack) { Some(stack.push(Opener::Sequence)) } else { None },
        Event::SequenceEnd => if stack.len() > 0 && stack.last() == Opener::Sequence {
            Some(stack.drop_last())
        } else {
            None
        },
        Event::Scalar(_) => if holds_nodes(stack) { Some(stack) } else { None },
        Event::Alias(_) => if holds_nodes(stack) { Some(stack) } else { None },
    }
}

/// The constructs left open by `events`, innermost last; `None` when some event is out of place.
pub open spec fn open_after(events: Seq<Event>) -> Option<Seq<Opener>>
    decreases events.len(),
{
    if events.len() == 0 {
        Some(Seq::empty())
    } else {
        match open_after(events.drop_last()) {
            Some(stack) => after_event(stack, events.last()),
            None => None,
        }
    }
}

/// A complete stream: every event in place, every construct closed again, and the stream
/// itself closed only by the last event.
pub open spec fn well_formed_stream(events: Seq<Event>) -> bool {
    &&& events.len() > 0
    &&& open_after(events) == Some(Seq::<Opener>::empty())
    &&& forall|i: int| 0 <= i < events.len() - 1 ==> !(#[trigger] events[i] is StreamEnd)
}

pub proof fn lemma_open_after_push(events: Seq<Event>, e: Event)
    ensures
        open_after(events.push(e)) == match open_after(events) {
            Some(stack) => after_event(stack, e),
            None => None,
        },
{
    assert(events.push(e).drop_last() =~= events);
}

/// A prefix of events in place is in place.
pub proof fn lemma_open_after_prefix(events: Seq<Event>, k: int)
    requires
        0 <= k <= events.len(),
        open_after(events) is Some,
    ensures
        open_after(events.take(k)) is Some,
    decreases events.len() - k,
{
    if k < events.len() {
        assert(events.drop_last().take(k) =~= events.take(k));
        lemma_open_after_prefix(events.drop_last(), k);
    } else {
        assert(events.take(k) =~= events);
    }
}

/// A copy of a token, keeping its class and span.
fn copy_token(t: &TokenWithSpan) -> (r: TokenWithSpan)
    ensures
        class_spec(r.token) == class_spec(t.token),
        r.span == t.span,
        r.token == t.token,
{
    let token = match &t.token {
        ParserToken::DocumentStart => ParserToken::DocumentStart,
        ParserToken::DocumentEnd => ParserToken::DocumentEnd,
        ParserToken::MappingKey => ParserToken::MappingKey,
        ParserToken::SequenceEntry => ParserToken::SequenceEntry,
        ParserToken::Colon => ParserToken::Colon,
        ParserToken::Comma => ParserToken::Comma,
        ParserToken::LeftBrace => ParserToken::LeftBrace,
        ParserToken::RightBrace => ParserToken::RightBrace,
        ParserToken::LeftBracket => ParserToken::LeftBracket,
        ParserToken::RightBracket => ParserToken::RightBracket,
        ParserToken::Anchor(n) => ParserToken::Anchor(n.clone()),
        ParserToken::Alias(n) => ParserToken::Alias(n.clone()),
        ParserToken::Tag(n) => ParserToken::Tag(n.clone()),
        ParserToken::Directive(n) => ParserToken::Directive(n.clone()),
        ParserToken::Scalar { raw, style, tag } => ParserToken::Scalar {
            raw: raw.clone(),
            style: *style,
            tag: match tag {
                Some(x) => Some(x.clone()),
                None => None,
            },
        },
        ParserToken::BlockScalar { indicator, value } => ParserToken::BlockScalar {
            indicator: *indicator,
            value: value.clone(),
        },
        ParserToken::Comment(n) => ParserToken::Comment(n.clone()),
        ParserToken::BlankLine => ParserToken::BlankLine,
        ParserToken::Eof => ParserToken::Eof,
    };
    TokenWithSpan { token, span: t.span }
}

/// The token lookahead: the lexer and the tokens pulled from it but not yet consumed.
struct Feed {
    lexer: Lexer,
    lookahead: Vec<TokenWithSpan>,
}

impl Feed {
    spec fn wf(&self) -> bool {
        &&& self.lexer.wf()
        &&& self.lookahead@.len() <= 2
    }

    /// How many tokens are still to be consumed.
    spec fn left(&self) -> nat {
        self.lexer.remaining().0.len() + self.lookahead@.len()
    }

    /// The class of the next token, when it has been pulled.
    spec fn front(&self) -> Option<Class> {
        if self.lookahead@.len() > 0 {
            Some(class_spec(self.lookahead@[0].token))
        } else {
            None
        }
    }

    /// The lexer has handed out its last token and ended without an error.
    spec fn lexer_done(&self) -> bool {
        &&& self.lexer.remaining().0.len() == 0
        &&& self.lexer.remaining().1 is None
    }

    /// No token is left and the lexer ended without an error.
    spec fn drained(&self) -> bool {
        &&& self.lookahead@.len() == 0
        &&& self.lexer_done()
    }

    /// `after` consumed nothing of `self`: the tokens already pulled are still first.
    spec fn kept(&self, after: &Feed) -> bool {
        &&& after.left() == self.left()
        &&& after.lookahead@.len() >= self.lookahead@.len()
        &&& after.lookahead@.take(self.lookahead@.len() as int) == self.lookahead@
        &&& (self.lexer_done() ==> after.lexer_done())
    }

    /// `after` consumed tokens of `self`, or nothing at all.
    spec fn no_gain(&self, after: &Feed) -> bool {
        &&& after.left() <= self.left()
        &&& (after.left() == self.left() ==> self.kept(after))
    }

    proof fn lemma_no_gain_trans(a: &Feed, b: &Feed, c: &Feed)
        requires
            a.no_gain(b),
            b.no_gain(c),
        ensures
            a.no_gain(c),
    {
        if c.left() == a.left() {
            Feed::lemma_kept_trans(a, b, c);
        }
    }

    proof fn lemma_kept_trans(a: &Feed, b: &Feed, c: &Feed)
        requires
            a.kept(b),
            b.kept(c),
        ensures
            a.kept(c),
    {
        assert(c.lookahead@.take(a.lookahead@.len() as int) =~= c.lookahead@.take(
            b.lookahead@.len() as int,
        ).take(a.lookahead@.len() as int));
    }

    proof fn lemma_kept_refl(a: &Feed)
        ensures
            a.kept(a),
    {
        assert(a.lookahead@.take(a.lookahead@.len() as int) =~= a.lookahead@);
    }

    /// Pulls tokens until `depth` are buffered or the lexer has no more.
    fn fill(&mut self, depth: usize) -> (r: Result<(), YamlError>)
        requires
            old(self).wf(),
            depth <= 2,
        ensures
            final(self).wf(),
            old(self).kept(final(self)),
            r is Ok ==> final(self).lookahead@.len() >= depth || final(self).lexer_done(),
            old(self).lookahead@.len() >= depth ==> r is Ok && *final(self) == *old(self),
    {
        proof {
            Feed::lemma_kept_refl(self);
        }
        while self.lookahead.len() < depth
            invariant
                self.wf(),
                depth <= 2,
                old(self).kept(self),
                old(self).lookahead@.len() >= depth ==> *self == *old(self),
            decreases depth - self.lookahead@.len(),
        {
            let ghost before = *self;
            match self.lexer.next_token() {
                Ok(Some(t)) => {
                    let tws = convert_token(&t);
                    self.lookahead.push(tws);
                    assert(self.lookahead@.take(old(self).lookahead@.len() as int)
                        =~= before.lookahead@.take(old(self).lookahead@.len() as int));
                },
                Ok(None) => {
                    return Ok(());
                },
                Err(e) => {
                    return Err(e);
                },
            }
        }
        Ok(())
    }

    /// The class of the token `offset` places ahead.
    fn class_at(&mut self, offset: usize) -> (r: Result<Option<Class>, YamlError>)
        requires
            old(self).wf(),
            offset <= 1,
        ensures
            final(self).wf(),
            old(self).kept(final(self)),
            r matches Ok(c) ==> (c is Some <==> final(self).lookahead@.len() > offset)
                && (c matches Some(k) ==> k == class_spec(final(self).lookahead@[offset as int].token)),
            offset == 0 ==> (r matches Ok(c) ==> c == final(self).front() && (c is None ==> final(self).drained())),
            old(self).lookahead@.len() > offset ==> r is Ok && *final(self) == *old(self),
    {
        self.fill(offset + 1)?;
        if offset < self.lookahead.len() {
            Ok(Some(class_of(&self.lookahead[offset].token)))
        } else {
            Ok(None)
        }
    }

    /// The span of the next token.
    fn span_at0(&mut self) -> (r: Result<Option<Span>, YamlError>)
        requires
            old(self).wf(),
        ensures
            final(self).wf(),
            old(self).kept(final(self)),
            r matches Ok(s) ==> (s is Some <==> final(self).lookahead@.len() > 0)
                && (s matches Some(sp) ==> sp == final(self).lookahead@[0].span),
    {
        self.fill(1)?;
        if self.lookahead.len() > 0 {
            Ok(Some(self.lookahead[0].span))
        } else {
            Ok(None)
        }
    }

    /// A copy of the next token.
    fn token_at0(&mut self) -> (r: Result<Option<TokenWithSpan>, YamlError>)
        requires
            old(self).wf(),
        ensures
            final(self).wf(),
            old(self).kept(final(self)),
            r matches Ok(t) ==> (t is Some <==> final(self).lookahead@.len() > 0)
                && (t matches Some(tk) ==> class_spec(tk.token) == class_spec(final(self).lookahead@[0].token)
                    && tk.span == final(self).lookahead@[0].span),
    {
        self.fill(1)?;
        if self.lookahead.len() > 0 {
            Ok(Some(copy_token(&self.lookahead[0])))
        } else {
            Ok(None)
        }
    }

    /// Consumes the next token.
    fn pop(&mut self) -> (r: Result<Option<TokenWithSpan>, YamlError>)
        requires
            old(self).wf(),
        ensures
            final(self).wf(),
            final(self).left() <= old(self).left(),
            old(self).no_gain(final(self)),
            r matches Ok(Some(_)) ==> final(self).left() + 1 == old(self).left(),
            r matches Ok(None) ==> old(self).kept(final(self)) && final(self).drained(),
            r matches Ok(Some(_)) ==> final(self).lookahead@ == old(self).lookahead@.drop_first()
                || old(self).lookahead@.len() == 0,
            r is Err ==> old(self).kept(final(self)),
            old(self).lookahead@.len() > 0 ==> (r matches Ok(Some(t)) && t == old(self).lookahead@[0]),
    {
        self.fill(1)?;
        if self.lookahead.len() > 0 {
            let t = self.lookahead.remove(0);
            Ok(Some(t))
        } else {
            Ok(None)
        }
    }

    /// Consumes comments and blank lines.
    fn skip_trivia(&mut self) -> (r: Result<(), YamlError>)
        requires
            old(self).wf(),
        ensures
            final(self).wf(),
            old(self).no_gain(final(self)),
            r is Ok ==> match final(self).front() {
                Some(c) => !trivia_class(c),
                None => final(self).drained(),
            },
    {
        proof {
            Feed::lemma_kept_refl(self);
        }
        loop
            invariant
                self.wf(),
                old(self).no_gain(self),
            decreases self.left(),
        {
            let ghost before = *self;
            let c = self.class_at(0);
            proof {
                Feed::lemma_no_gain_trans(old(self), &before, self);
            }
            let c = c?;
            match c {
                Some(Class::Comment) | Some(Class::BlankLine) => {
                    let ghost b2 = *self;
                    let p = self.pop();
                    proof {
                        Feed::lemma_no_gain_trans(old(self), &b2, self);
                    }
                    p?;
                },
                _ => {
                    return Ok(());
                },
            }
        }
    }
}

/// Which container a stack frame is parsing.
#[derive(Clone, Copy, Debug, PartialEq, Eq, Structural)]
enum FrameKind {
    Document,
    BlockMapping,
    BlockSequence,
    FlowMapping,
    FlowSequence,
}

/// What a frame is waiting for next.
#[derive(Clone, Copy, Debug, PartialEq, Eq, Structural)]
enum FrameState {
    /// Waiting for the next entry (mapping key, sequence item, flow element).
    BeginEntry,
    /// A mapping key was parsed; waiting for `:` and then the value.
    ExpectColon,
    /// A value was parsed; the frame is ready to move on.
    AfterValue,
}

/// Where the top-level stream is.
#[derive(Clone, Copy, Debug, PartialEq, Eq, Structural)]
enum StreamState {
    Start,
    BetweenDocuments,
    Finished,
}

/// One entry of the explicit parse stack, which stands in for the call stack of a
/// recursive-descent parser and lets this one stop and resume between events.
struct Frame {
    kind: FrameKind,
    state: FrameState,
    /// Column of the first entry of a block collection, once seen.
    entry_col: Option<usize>,
    /// Column and line of the mapping key awaiting its `:`.
    key_col: usize,
    key_line: usize,
    /// Span used for a document root that turns out to be empty.
    null_span: Option<Span>,
    /// Anchors declared on this node, registered once the node is complete.
    pending_anchors: Vec<(String, Span)>,
}

type Shape = (FrameKind, FrameState);

spec fn opener_of(k: FrameKind) -> Opener {
    match k {
        FrameKind::Document => Opener::Document,
        FrameKind::BlockMapping => Opener::Mapping,
        FrameKind::FlowMapping => Opener::Mapping,
        FrameKind::BlockSequence => Opener::Sequence,
        FrameKind::FlowSequence => Opener::Sequence,
    }
}

spec fn shape_of(f: Frame) -> Shape {
    (f.kind, f.state)
}

spec fn shapes_of(frames: Seq<Frame>) -> Seq<Shape> {
    frames.map_values(|f: Frame| shape_of(f))
}

spec fn openers_of(shapes: Seq<Shape>) -> Seq<Opener> {
    shapes.map_values(|s: Shape| opener_of(s.0))
}

/// The stack's legal shapes: a document at the bottom and only there; documents and flow
/// sequences never wait for a colon; block sequences never change state; and a flow sequence
/// waiting for an entry is always innermost.
spec fn shapes_ok(sh: Seq<Shape>) -> bool {
    &&& forall|i: int| 0 <= i < sh.len() ==> ((#[trigger] sh[i]).0 == FrameKind::Document) == (i == 0)
    &&& forall|i: int|
        0 <= i < sh.len() && ((#[trigger] sh[i]).0 == FrameKind::Document || sh[i].0 == FrameKind::FlowSequence)
            ==> sh[i].1 != FrameState::ExpectColon
    &&& forall|i: int| 0 <= i < sh.len() && (#[trigger] sh[i]).0 == FrameKind::BlockSequence ==> sh[i].1 == FrameState::BeginEntry
    &&& forall|i: int|
        0 <= i < sh.len() - 1 ==> !((#[trigger] sh[i]).0 == FrameKind::FlowSequence && sh[i].1 == FrameState::BeginEntry)
}

spec fn is_separator(front: Option<Class>) -> bool {
    front == Some(Class::Comma) || front == Some(Class::RightBracket)
}

/// How many events a frame may still produce before the next token is consumed.
spec fn shape_weight(s: Shape, front: Option<Class>) -> nat {
    match s.0 {
        FrameKind::Document => if s.1 == FrameState::BeginEntry { 10 } else { 2 },
        FrameKind::FlowSequence => if s.1 == FrameState::BeginEntry && !is_separator(front) { 4 } else { 1 },
        _ => 1,
    }
}

spec fn weight_below(sh: Seq<Shape>) -> nat
    decreases sh.len(),
{
    if sh.len() == 0 {
        0
    } else {
        weight_below(sh.drop_last()) + shape_weight(sh.last(), None)
    }
}

spec fn stack_weight(sh: Seq<Shape>, front: Option<Class>) -> nat {
    if sh.len() == 0 {
        0
    } else {
        weight_below(sh.drop_last()) + shape_weight(sh.last(), front)
    }
}

proof fn lemma_weight_front(s: Shape, front: Option<Class>)
    ensures
        shape_weight(s, front) <= shape_weight(s, None),
        shape_weight(s, front) >= 1,
        !(s.0 == FrameKind::FlowSequence && s.1 == FrameState::BeginEntry) ==> shape_weight(s, front) == shape_weight(s, None),
{
}

proof fn lemma_weight_push(sh: Seq<Shape>, s: Shape, front: Option<Class>)
    requires
        sh.len() > 0 ==> !(sh.last().0 == FrameKind::FlowSequence && sh.last().1 == FrameState::BeginEntry),
    ensures
        stack_weight(sh.push(s), front) == stack_weight(sh, front) + shape_weight(s, front),
{
    assert(sh.push(s).drop_last() =~= sh);
    if sh.len() > 0 {
        lemma_weight_front(sh.last(), front);
    }
}

proof fn lemma_weight_pop(sh: Seq<Shape>, front: Option<Class>)
    requires
        sh.len() > 0,
    ensures
        stack_weight(sh.drop_last(), front) + shape_weight(sh.last(), front) <= stack_weight(sh, front),
{
    let d = sh.drop_last();
    if d.len() > 0 {
        lemma_weight_front(d.last(), front);
    }
}

proof fn lemma_weight_top(sh: Seq<Shape>, s: Shape, front: Option<Class>)
    requires
        sh.len() > 0,
    ensures
        stack_weight(sh.drop_last().push(s), front) + shape_weight(sh.last(), front) == stack_weight(sh, front)
            + shape_weight(s, front),
{
    assert(sh.drop_last().push(s).drop_last() =~= sh.drop_last());
}

/// Whether `known` holds a name with the characters of `name`.
fn knows(known: &Vec<String>, name: &str) -> (r: bool)
    ensures
        r <==> exists|i: int| 0 <= i < known@.len() && (#[trigger] known@[i])@ == name@,
{
    let mut i: usize = 0;
    while i < known.len()
        invariant
            i <= known@.len(),
            forall|j: int| 0 <= j < i ==> (#[trigger] known@[j])@ != name@,
        decreases known@.len() - i,
    {
        if same_text(known[i].as_str(), name) {
            return true;
        }
        i = i + 1;
    }
    false
}

/// Registers each of `names` as a declared anchor; a name declared before is an error.
fn register_names(known: &mut Vec<String>, names: &Vec<(String, Span)>, source: &str) -> (r: Result<(), YamlError>)
    requires
        byte_len(source@) <= isize::MAX,
        forall|i: int, j: int| 0 <= i < j < old(known)@.len() ==> (#[trigger] old(known)@[i])@ != (#[trigger] old(known)@[j])@,
    ensures
        forall|i: int, j: int| 0 <= i < j < final(known)@.len() ==> (#[trigger] final(known)@[i])@ != (#[trigger] final(known)@[j])@,
        r is Ok <==> names_fresh(text_views(old(known)@), name_views(names@)),
        r is Ok ==> text_views(final(known)@) == text_views(old(known)@) + name_views(names@),
        r matches Err(e) ==> e.kind == ErrorKind::InvalidAnchor,
{
    let ghost start = text_views(known@);
    let mut k: usize = 0;
    while k < names.len()
        invariant
            byte_len(source@) <= isize::MAX,
            forall|i: int, j: int| 0 <= i < j < known@.len() ==> (#[trigger] known@[i])@ != (#[trigger] known@[j])@,
            k <= names@.len(),
            start == text_views(old(known)@),
            text_views(known@) == start + name_views(names@).take(k as int),
            names_fresh(start, name_views(names@).take(k as int)),
        decreases names@.len() - k,
    {
        let (name, span) = (&names[k].0, names[k].1);
        let ghost nv = name_views(names@);
        assert(nv[k as int] == name@);
        assert(nv.take(k + 1).drop_last() =~= nv.take(k as int));
        assert(nv.take(k + 1).last() == name@);
        if knows(known, name.as_str()) {
            proof {
                let j = choose|j: int| 0 <= j < known@.len() && (#[trigger] known@[j])@ == name@;
                assert(text_views(known@)[j] == name@);
                assert((start + nv.take(k as int)).contains(name@));
                assert(!names_fresh(start, nv.take(k + 1)));
                lemma_fresh_prefix(start, nv, k as int + 1, nv.len() as int);
                assert(nv.take(nv.len() as int) =~= nv);
            }
            return Err(YamlError::near(span.start, ErrorKind::InvalidAnchor, "duplicate anchor", source));
        }
        let ghost before = known@;
        known.push(name.clone());
        proof {
            assert(text_views(known@) =~= text_views(before).push(name@));
            assert forall|j: int| 0 <= j < text_views(before).len() implies text_views(before)[j] != name@ by {
                assert(before[j]@ == text_views(before)[j]);
            }
            assert(!(start + nv.take(k as int)).contains(name@));
            assert(text_views(known@) =~= start + nv.take(k + 1));
        }
        k = k + 1;
    }
    assert(name_views(names@).take(names@.len() as int) =~= name_views(names@));
    Ok(())
}

/// The characters of each string.
pub open spec fn text_views(v: Seq<String>) -> Seq<Seq<char>> {
    v.map_values(|s: String| s@)
}

/// The characters of each name.
pub open spec fn name_views(v: Seq<(String, Span)>) -> Seq<Seq<char>> {
    v.map_values(|p: (String, Span)| p.0@)
}

/// Every name of `names` is new: neither among `known` nor among the names before it.
pub open spec fn names_fresh(known: Seq<Seq<char>>, names: Seq<Seq<char>>) -> bool
    decreases names.len(),
{
    if names.len() == 0 {
        true
    } else {
        names_fresh(known, names.drop_last()) && !(known + names.drop_last()).contains(names.last())
    }
}

proof fn lemma_fresh_prefix(known: Seq<Seq<char>>, names: Seq<Seq<char>>, j: int, k: int)
    requires
        0 <= j <= k <= names.len(),
        !names_fresh(known, names.take(j)),
    ensures
        !names_fresh(known, names.take(k)),
    decreases k - j,
{
    if j < k {
        lemma_fresh_prefix(known, names, j, k - 1);
        assert(names.take(k).drop_last() =~= names.take(k - 1));
    }
}

fn copy_text(t: &Option<String>) -> (r: Option<String>)
    ensures
        crate::parser_tokens::opt_text(r) == crate::parser_tokens::opt_text(*t),
{
    match t {
        Some(x) => Some(x.clone()),
        None => None,
    }
}

fn null_scalar_event(span: Span) -> (e: Event)
    ensures
        e is Scalar,
{
    Event::Scalar(ScalarEvent {
        value: ScalarValue::Null,
        style: ScalarStyle::Plain,
        raw: String::new(),
        anchor: None,
        tag: None,
        span,
    })
}


/// The constructs a parser in stream state `stream` with frames `sh` has open.
spec fn expected_for(stream: StreamState, sh: Seq<Shape>) -> Seq<Opener> {
    (if stream == StreamState::BetweenDocuments { seq![Opener::Stream] } else { Seq::empty() }) + openers_of(sh)
}

proof fn lemma_expected_push(stream: StreamState, sh: Seq<Shape>, s: Shape)
    ensures
        expected_for(stream, sh.push(s)) == expected_for(stream, sh).push(opener_of(s.0)),
{
    assert(openers_of(sh.push(s)) =~= openers_of(sh).push(opener_of(s.0)));
    assert(expected_for(stream, sh.push(s)) =~= expected_for(stream, sh).push(opener_of(s.0)));
}

proof fn lemma_expected_pop(stream: StreamState, sh: Seq<Shape>)
    requires
        sh.len() > 0,
    ensures
        expected_for(stream, sh.drop_last()) == expected_for(stream, sh).drop_last(),
        expected_for(stream, sh).len() > 0,
        expected_for(stream, sh).last() == opener_of(sh.last().0),
        sh.last().0 != FrameKind::Document && shapes_ok(sh) ==> holds_nodes(expected_for(stream, sh.drop_last())),
        shapes_ok(sh) ==> holds_nodes(expected_for(stream, sh)),
{
    lemma_expected_push(stream, sh.drop_last(), sh.last());
    assert(sh.drop_last().push(sh.last()) =~= sh);
    if sh.last().0 != FrameKind::Document && shapes_ok(sh) {
        assert(sh.len() > 1) by {
            assert(sh[0].0 == FrameKind::Document);
        }
        lemma_expected_push(stream, sh.drop_last().drop_last(), sh.drop_last().last());
        assert(sh.drop_last().drop_last().push(sh.drop_last().last()) =~= sh.drop_last());
    }
}

proof fn lemma_expected_top(stream: StreamState, sh: Seq<Shape>, s: Shape)
    requires
        sh.len() > 0,
        s.0 == sh.last().0,
    ensures
        expected_for(stream, sh.drop_last().push(s)) == expected_for(stream, sh),
{
    lemma_expected_push(stream, sh.drop_last(), s);
    lemma_expected_push(stream, sh.drop_last(), sh.last());
    assert(sh.drop_last().push(sh.last()) =~= sh);
}

proof fn lemma_stack_front(sh: Seq<Shape>, f: Option<Class>)
    ensures
        stack_weight(sh, f) <= stack_weight(sh, None),
        stack_weight(sh, None) <= stack_weight(sh, f) + 3,
        sh.len() > 0 && !(sh.last().0 == FrameKind::FlowSequence && sh.last().1 == FrameState::BeginEntry)
            ==> stack_weight(sh, f) == stack_weight(sh, None),
{
    if sh.len() > 0 {
        lemma_weight_front(sh.last(), f);
    }
}

/// Sets the state of the innermost frame.
fn set_top_state(frames: &mut Vec<Frame>, st: FrameState)
    requires
        old(frames)@.len() > 0,
    ensures
        final(frames)@.len() == old(frames)@.len(),
        shapes_of(final(frames)@) == shapes_of(old(frames)@).drop_last().push((shapes_of(old(frames)@).last().0, st)),
        final(frames)@.last().key_col == old(frames)@.last().key_col,
        final(frames)@.last().key_line == old(frames)@.last().key_line,
        final(frames)@.last().null_span == old(frames)@.last().null_span,
        final(frames)@.last().entry_col == old(frames)@.last().entry_col,
{
    let mut f = frames.pop().unwrap();
    f.state = st;
    frames.push(f);
    assert(shapes_of(frames@) =~= shapes_of(old(frames)@).drop_last().push((shapes_of(old(frames)@).last().0, st)));
}

/// Records the column of the innermost frame's first entry.
fn set_top_entry_col(frames: &mut Vec<Frame>, col: usize)
    requires
        old(frames)@.len() > 0,
    ensures
        final(frames)@.len() == old(frames)@.len(),
        shapes_of(final(frames)@) == shapes_of(old(frames)@),
        final(frames)@ == old(frames)@.drop_last().push(Frame { entry_col: Some(col), ..old(frames)@.last() }),
{
    let mut f = frames.pop().unwrap();
    f.entry_col = Some(col);
    frames.push(f);
    assert(shapes_of(frames@) =~= shapes_of(old(frames)@));
}

/// Records where the innermost frame's pending mapping key stands.
fn set_top_key(frames: &mut Vec<Frame>, col: usize, line: usize)
    requires
        old(frames)@.len() > 0,
    ensures
        final(frames)@.len() == old(frames)@.len(),
        shapes_of(final(frames)@) == shapes_of(old(frames)@),
        final(frames)@ == old(frames)@.drop_last().push(Frame { key_col: col, key_line: line, ..old(frames)@.last() }),
{
    let mut f = frames.pop().unwrap();
    f.key_col = col;
    f.key_line = line;
    frames.push(f);
    assert(shapes_of(frames@) =~= shapes_of(old(frames)@));
}

fn new_frame(kind: FrameKind, pending_anchors: Vec<(String, Span)>) -> (f: Frame)
    ensures
        f.kind == kind,
        f.state == FrameState::BeginEntry,
        f.entry_col is None,
{
    Frame { kind, state: FrameState::BeginEntry, entry_col: None, key_col: 0, key_line: 0, null_span: None, pending_anchors }
}

/// A pull-based, source-driven event parser. `floats` decides YAML 1.1 sexagesimal floats.
pub struct EventParser<'a, R: SexagesimalFloats> {
    source: &'a str,
    feed: Feed,
    /// Events produced by the latest step but not yet handed out, oldest first.
    outbox: Vec<Event>,
    frames: Vec<Frame>,
    stream: StreamState,
    saw_document: bool,
    anchors: Vec<String>,
    version: YamlVersion,
    /// Whether `ParserOptions::yaml_version` fixed the version.
    version_explicit: bool,
    /// Whether the version was fixed by the options or by a `%YAML` directive.
    version_pinned: bool,
    merge_keys: bool,
    strict_version: bool,
    finished: bool,
    floats: &'a R,
    /// Every event handed out so far.
    emitted: Ghost<Seq<Event>>,
    /// No error was returned and the stream was not cut short.
    clean: Ghost<bool>,
}

impl<'a, R: SexagesimalFloats> EventParser<'a, R> {
    /// The events handed out so far, oldest first.
    pub closed spec fn events(&self) -> Seq<Event> {
        self.emitted@
    }

    /// No error was returned and [`EventParser::finish`] was not called.
    pub closed spec fn is_clean(&self) -> bool {
        self.clean@
    }

    /// Nothing more will be handed out.
    pub closed spec fn exhausted(&self) -> bool {
        self.finished && self.outbox@.len() == 0
    }

    /// A parser that has not handed out anything yet.
    pub closed spec fn is_fresh(&self) -> bool {
        &&& self.clean@
        &&& self.emitted@.len() == 0
        &&& self.outbox@.len() == 0
        &&& self.stream == StreamState::Start
        &&& !self.finished
    }

    /// How many tokens are buffered ahead of the parse.
    pub closed spec fn buffered_tokens(&self) -> nat {
        self.feed.lookahead@.len()
    }

    spec fn shapes(&self) -> Seq<Shape> {
        shapes_of(self.frames@)
    }

    spec fn expected(&self) -> Seq<Opener> {
        expected_for(self.stream, self.shapes())
    }

    spec fn all_events(&self) -> Seq<Event> {
        self.emitted@ + self.outbox@
    }

    spec fn stream_weight(&self) -> nat {
        match self.stream {
            StreamState::Start => 13,
            StreamState::BetweenDocuments => if self.saw_document { 1 } else { 12 },
            StreamState::Finished => 0,
        }
    }

    /// Bounds the events still to come: a fixed share per token left plus what the open
    /// frames may still emit.
    spec fn phi(&self) -> nat {
        16 * self.feed.left() + self.stream_weight() + stack_weight(self.shapes(), self.feed.front())
    }

    spec fn rank(&self) -> nat {
        let sh = self.shapes();
        if sh.len() > 0 && sh.last().1 == FrameState::AfterValue { 1 } else { 0 }
    }

    /// Decreases with every event handed out.
    pub closed spec fn measure(&self) -> nat {
        self.phi() + self.outbox@.len()
    }

    spec fn struct_inv(&self) -> bool {
        &&& self.feed.wf()
        &&& shapes_ok(self.shapes())
        &&& self.shapes().len() > 0 ==> self.stream == StreamState::BetweenDocuments && self.saw_document
        &&& self.stream != StreamState::Finished
        &&& (self.stream == StreamState::Start ==> !self.saw_document)
        &&& (self.stream == StreamState::BetweenDocuments && self.shapes().len() == 0 && self.saw_document)
            ==> (self.feed.front() == Some(Class::Eof) || self.feed.front() == Some(Class::DocumentStart)
            || self.feed.drained())
        &&& forall|i: int, j: int| 0 <= i < j < self.anchors@.len() ==> (#[trigger] self.anchors@[i])@ != (#[trigger] self.anchors@[j])@
    }

    spec fn balance_inv(&self) -> bool {
        let all = self.all_events();
        &&& open_after(all) == Some(self.expected())
        &&& forall|i: int| 0 <= i < all.len() && (#[trigger] all[i] is StreamEnd) ==> i == all.len() - 1 && self.stream == StreamState::Finished
        &&& self.stream == StreamState::Start ==> all.len() == 0
        &&& self.stream != StreamState::Start ==> all.len() > 0
        &&& self.stream == StreamState::Finished ==> self.shapes().len() == 0
        &&& self.finished ==> self.stream == StreamState::Finished
    }

    pub closed spec fn inv(&self) -> bool {
        &&& byte_len(self.source@) <= isize::MAX
        &&& self.feed.wf()
        &&& (!self.clean@ ==> self.finished)
        &&& (!self.finished ==> self.struct_inv())
        &&& (self.clean@ ==> self.balance_inv())
    }

    spec fn ready(&self) -> bool {
        self.inv() && !self.finished
    }

    spec fn same_config(&self, after: &Self) -> bool {
        &&& after.feed.wf()
        &&& after.source == self.source
        &&& after.emitted == self.emitted
        &&& after.clean == self.clean
        &&& after.version_explicit == self.version_explicit
        &&& after.merge_keys == self.merge_keys
        &&& after.strict_version == self.strict_version
        &&& after.floats == self.floats
    }

    spec fn progress(&self, after: &Self) -> bool {
        &&& after.phi() + after.outbox@.len() <= self.phi() + self.outbox@.len()
        &&& (after.outbox@.len() > self.outbox@.len() || after.finished || after.phi() < self.phi() || (after.phi()
            == self.phi() && after.rank() < self.rank()))
    }
}


impl<'a, R: SexagesimalFloats> EventParser<'a, R> {
    /// Creates a parser over `source`. No parsing happens until the first
    /// [`EventParser::next_event`].
    pub fn new(source: &'a str, options: &ParserOptions, floats: &'a R) -> (p: Self)
        requires
            byte_len(source@) <= isize::MAX,
        ensures
            p.inv(),
            p.is_fresh(),
    {
        let version = match options.yaml_version {
            Some(v) => v,
            None => YamlVersion::Version12,
        };
        let p = EventParser {
            source,
            feed: Feed { lexer: Lexer::new(source), lookahead: Vec::new() },
            outbox: Vec::new(),
            frames: Vec::new(),
            stream: StreamState::Start,
            saw_document: false,
            anchors: Vec::new(),
            version,
            version_explicit: options.yaml_version.is_some(),
            version_pinned: options.yaml_version.is_some(),
            merge_keys: options.merge_keys,
            strict_version: options.strict_version,
            finished: false,
            floats,
            emitted: Ghost(Seq::empty()),
            clean: Ghost(true),
        };
        assert(p.shapes() =~= Seq::<Shape>::empty());
        assert(p.all_events() =~= Seq::<Event>::empty());
        assert(p.expected() =~= Seq::<Opener>::empty());
        p
    }

    /// Pulls the next event, or `None` once the stream is exhausted. After an error the parser
    /// is exhausted: further calls return `None`.
    pub fn next_event(&mut self) -> (r: Result<Option<Event>, YamlError>)
        requires
            old(self).inv(),
        ensures
            final(self).inv(),
            final(self).buffered_tokens() <= 2 || final(self).exhausted(),
            r matches Ok(Some(e)) ==> final(self).events() == old(self).events().push(e)
                && final(self).measure() < old(self).measure() && final(self).is_clean() == old(self).is_clean(),
            r matches Ok(None) ==> final(self).exhausted() && final(self).events() == old(self).events()
                && final(self).is_clean() == old(self).is_clean(),
            r is Err ==> final(self).exhausted() && !final(self).is_clean() && final(self).events()
                == old(self).events(),
            old(self).exhausted() ==> r matches Ok(None),
            final(self).is_clean() ==> open_after(final(self).events()) is Some,
            r matches Ok(None) ==> (final(self).is_clean() ==> well_formed_stream(final(self).events())),
    {
        if self.outbox.len() == 0 && !self.finished {
            match self.pump() {
                Ok(()) => {},
                Err(e) => {
                    self.finished = true;
                    self.outbox = Vec::new();
                    self.clean = Ghost(false);
                    return Err(e);
                },
            }
        }
        if self.outbox.len() > 0 {
            let ghost all = self.all_events();
            let e = self.outbox.remove(0);
            self.emitted = Ghost(self.emitted@.push(e));
            assert(self.all_events() =~= all);
            proof {
                if self.clean@ {
                    lemma_open_after_prefix(all, self.emitted@.len() as int);
                    assert(all.take(self.emitted@.len() as int) =~= self.emitted@);
                }
            }
            Ok(Some(e))
        } else {
            proof {
                assert(self.all_events() =~= self.emitted@);
                if self.clean@ {
                    assert(self.shapes() =~= Seq::<Shape>::empty());
                    assert(openers_of(self.shapes()) =~= Seq::<Opener>::empty());
                    assert(self.expected() =~= Seq::<Opener>::empty());
                }
            }
            Ok(None)
        }
    }

    /// Drops the remainder of the stream and marks the parser exhausted.
    pub fn finish(&mut self)
        requires
            old(self).inv(),
        ensures
            final(self).inv(),
            final(self).exhausted(),
            !final(self).is_clean(),
            final(self).events() == old(self).events(),
    {
        self.finished = true;
        self.outbox = Vec::new();
        self.clean = Ghost(false);
    }

    /// Parses the rest of the source into an event list; from a fresh parser the list is a
    /// well-formed stream.
    pub fn collect_events(&mut self) -> (r: Result<Vec<Event>, YamlError>)
        requires
            old(self).inv(),
        ensures
            final(self).inv(),
            final(self).exhausted(),
            r matches Ok(v) ==> final(self).events() == old(self).events() + v@,
            r matches Ok(v) ==> (old(self).is_fresh() ==> well_formed_stream(v@)),
    {
        let mut events: Vec<Event> = Vec::new();
        loop
            invariant
                self.inv(),
                self.events() == old(self).events() + events@,
                self.is_clean() == old(self).is_clean(),
            decreases self.measure(),
        {
            match self.next_event() {
                Ok(Some(e)) => {
                    events.push(e);
                    assert(self.events() =~= old(self).events() + events@);
                },
                Ok(None) => {
                    proof {
                        if old(self).is_fresh() {
                            assert(old(self).events() + events@ =~= events@);
                        }
                    }
                    return Ok(events);
                },
                Err(e) => {
                    return Err(e);
                },
            }
        }
    }
}


/// Errors, scalar resolution and directives.
impl<'a, R: SexagesimalFloats> EventParser<'a, R> {
    fn source_len(&self) -> (r: usize)
        ensures
            r == byte_len(self.source@),
    {
        proof {
            crate::text::lemma_byte_len_encode(self.source@);
        }
        self.source.as_bytes().len()
    }

    fn error_at(&self, offset: usize, kind: ErrorKind, message: &str) -> (e: YamlError)
        requires
            byte_len(self.source@) <= isize::MAX,
        ensures
            e.kind == kind,
            e.offset == offset,
    {
        YamlError::near(offset, kind, message, self.source)
    }

    fn eof_error(&self) -> (e: YamlError)
        requires
            byte_len(self.source@) <= isize::MAX,
        ensures
            e.kind == ErrorKind::UnexpectedEof,
            e.offset == byte_len(self.source@),
    {
        self.error_at(self.source_len(), ErrorKind::UnexpectedEof, "unexpected end of input")
    }

    /// An error at the next token, or at the end of the source.
    fn error_here(&mut self, kind: ErrorKind, message: &str) -> (e: YamlError)
        requires
            byte_len(old(self).source@) <= isize::MAX,
            old(self).feed.wf(),
        ensures
            e.kind == kind,
            old(self).same_config(final(self)),
    {
        let offset = match self.feed.span_at0() {
            Ok(Some(sp)) => sp.start,
            _ => self.source_len(),
        };
        self.error_at(offset, kind, message)
    }

    /// Implicit resolution: only plain scalars type-resolve; quoted and block scalars are
    /// strings. With `strict_version` and no pinned version, a scalar that resolves differently
    /// under YAML 1.1 and 1.2 is an error.
    fn resolve(&self, raw: &String, style: ScalarStyle, span: Span) -> (r: Result<ScalarValue, YamlError>)
        requires
            byte_len(self.source@) <= isize::MAX,
        ensures
            style != ScalarStyle::Plain ==> (r matches Ok(ScalarValue::String(t)) && t@ == raw@),
            style == ScalarStyle::Plain ==> (r matches Ok(v) ==> exists|b: bool|
                v@ == crate::resolve_spec::resolve_model(raw@, self.version, b)),
            !(self.strict_version && !self.version_pinned) ==> r is Ok,
            r matches Err(e) ==> e.kind == ErrorKind::AmbiguousVersion && e.offset == span.start,
    {
        if style != ScalarStyle::Plain {
            return Ok(ScalarValue::String(raw.clone()));
        }
        let trimmed = string_from_chars(trim_chars(&chars_of(raw.as_str())).as_slice());
        let sexagesimal = self.floats.is_sexagesimal_float(trimmed.as_str());
        if self.strict_version && !self.version_pinned {
            let under_1_1 = resolve_scalar(raw.as_str(), YamlVersion::Version11, sexagesimal);
            let under_1_2 = resolve_scalar(raw.as_str(), YamlVersion::Version12, sexagesimal);
            if !values_agree(&under_1_1, &under_1_2) {
                return Err(self.error_at(
                    span.start,
                    ErrorKind::AmbiguousVersion,
                    "resolves differently under YAML 1.1 vs 1.2; pin a version with a '%YAML' directive or ParserOptions::yaml_version, or quote the scalar to force it to a string",
                ));
            }
        }
        Ok(resolve_scalar(raw.as_str(), self.version, sexagesimal))
    }

    /// Merge keys need the anchored mapping replayed, which a single pass cannot do, so they
    /// are refused unless merge keys are off.
    fn reject_merge_key(&self, raw: &String, span: Span) -> (r: Result<(), YamlError>)
        requires
            byte_len(self.source@) <= isize::MAX,
        ensures
            r is Err <==> self.merge_keys && raw@ == "<<"@,
            r matches Err(e) ==> e.kind == ErrorKind::InvalidMergeKey && e.offset == span.start,
    {
        if self.merge_keys && same_text(raw.as_str(), "<<") {
            return Err(self.error_at(
                span.start,
                ErrorKind::InvalidMergeKey,
                "merge keys ('<<') are not supported by the streaming parser; set ParserOptions::merge_keys to false to treat '<<' as a plain key",
            ));
        }
        Ok(())
    }

    /// A `%YAML` directive sets the version unless the options fixed it.
    fn apply_directive(&mut self, text: &String, span: Span) -> (r: Result<(), YamlError>)
        requires
            byte_len(old(self).source@) <= isize::MAX,
            old(self).feed.wf(),
        ensures
            final(self).feed == old(self).feed,
            final(self).frames == old(self).frames,
            final(self).outbox == old(self).outbox,
            final(self).stream == old(self).stream,
            final(self).saw_document == old(self).saw_document,
            final(self).anchors == old(self).anchors,
            final(self).finished == old(self).finished,
            old(self).same_config(final(self)),
            ({
                let ws = crate::parser::words_from(text@, 0, Seq::empty(), Seq::empty());
                let yaml = ws.len() >= 2 && ws[0] == "YAML"@;
                &&& r is Err <==> yaml && version_named(ws[1]) is None
                &&& r matches Err(e) ==> e.kind == ErrorKind::InvalidDirective && e.offset == span.start
                &&& (r is Ok && yaml && !old(self).version_explicit) ==> (final(self).version == version_named(
                    ws[1],
                )->0 && final(self).version_pinned)
                &&& !(r is Ok && yaml && !old(self).version_explicit) ==> (final(self).version == old(self).version
                    && final(self).version_pinned == old(self).version_pinned)
            }),
    {
        let words = whitespace_words(text.as_str());
        if words.len() >= 2 && crate::text::chars_are(&words[0], "YAML") {
            let ver = string_from_chars(words[1].as_slice());
            match YamlVersion::parse_text(ver.as_str()) {
                Ok(version) => {
                    if !self.version_explicit {
                        self.version = version;
                        self.version_pinned = true;
                    }
                },
                Err(()) => {
                    return Err(self.error_at(span.start, ErrorKind::InvalidDirective, "unrecognized %YAML version"));
                },
            }
        }
        Ok(())
    }

    /// Applies every directive ahead.
    fn consume_directives(&mut self) -> (r: Result<(), YamlError>)
        requires
            byte_len(old(self).source@) <= isize::MAX,
            old(self).feed.wf(),
        ensures
            final(self).feed.wf(),
            old(self).feed.no_gain(&final(self).feed),
            final(self).frames == old(self).frames,
            final(self).outbox == old(self).outbox,
            final(self).stream == old(self).stream,
            final(self).saw_document == old(self).saw_document,
            final(self).anchors == old(self).anchors,
            final(self).finished == old(self).finished,
            old(self).same_config(final(self)),
    {
        proof {
            Feed::lemma_kept_refl(&self.feed);
        }
        loop
            invariant
                byte_len(self.source@) <= isize::MAX,
                self.feed.wf(),
                old(self).feed.no_gain(&self.feed),
                self.frames == old(self).frames,
                self.outbox == old(self).outbox,
                self.stream == old(self).stream,
                self.saw_document == old(self).saw_document,
                self.anchors == old(self).anchors,
                self.finished == old(self).finished,
                old(self).same_config(self),
            decreases self.feed.left(),
        {
            let ghost f0 = self.feed;
            let sk = self.feed.skip_trivia();
            proof {
                Feed::lemma_no_gain_trans(&old(self).feed, &f0, &self.feed);
            }
            sk?;
            let ghost f1 = self.feed;
            let c = self.feed.class_at(0);
            proof {
                Feed::lemma_no_gain_trans(&old(self).feed, &f1, &self.feed);
            }
            match c? {
                Some(Class::Directive) => {},
                _ => {
                    return Ok(());
                },
            }
            let ghost f2 = self.feed;
            let p = self.feed.pop();
            proof {
                Feed::lemma_no_gain_trans(&old(self).feed, &f2, &self.feed);
            }
            let token = match p? {
                Some(t) => t,
                None => {
                    return Err(self.eof_error());
                },
            };
            if let ParserToken::Directive(text) = &token.token {
                self.apply_directive(text, token.span)?;
            }
        }
    }

    /// Whether the next token ends the input.
    fn at_eof(&mut self) -> (r: Result<bool, YamlError>)
        requires
            old(self).feed.wf(),
        ensures
            final(self).feed.wf(),
            old(self).feed.kept(&final(self).feed),
            final(self).frames == old(self).frames,
            final(self).outbox == old(self).outbox,
            old(self).same_config(final(self)),
            final(self).stream == old(self).stream,
            final(self).saw_document == old(self).saw_document,
            final(self).anchors == old(self).anchors,
            final(self).finished == old(self).finished,
            r matches Ok(b) ==> (b <==> (final(self).feed.front() == Some(Class::Eof) || final(self).feed.drained())),
    {
        let c = self.feed.class_at(0)?;
        match c {
            None => Ok(true),
            Some(Class::Eof) => Ok(true),
            _ => Ok(false),
        }
    }
}


/// The driver: advances the explicit parse stack until at least one event is queued.
impl<'a, R: SexagesimalFloats> EventParser<'a, R> {
    fn pump(&mut self) -> (r: Result<(), YamlError>)
        requires
            old(self).ready(),
            old(self).outbox@.len() == 0,
        ensures
            old(self).same_config(final(self)),
            r is Ok ==> final(self).inv() && (final(self).outbox@.len() > 0 || final(self).finished)
                && final(self).phi() + final(self).outbox@.len() <= old(self).phi(),
            old(self).frames@.len() == 0 && old(self).stream == StreamState::Start ==> r is Ok && final(self).outbox@
                == seq![Event::StreamStart],
    {
        loop
            invariant
                self.ready(),
                self.outbox@.len() == 0,
                old(self).same_config(self),
                self.phi() <= old(self).phi(),
                old(self).frames@.len() == 0 && old(self).stream == StreamState::Start ==> self.frames@.len() == 0
                    && self.stream == StreamState::Start,
            decreases self.phi(), self.rank(),
        {
            let n = self.frames.len();
            if n == 0 {
                self.step_stream()?;
            } else {
                let kind = self.frames[n - 1].kind;
                proof {
                    assert(self.shapes()[n - 1] == (self.frames@[n - 1].kind, self.frames@[n - 1].state));
                }
                match kind {
                    FrameKind::Document => self.step_document()?,
                    FrameKind::BlockMapping => self.step_block_mapping()?,
                    FrameKind::BlockSequence => self.step_block_sequence()?,
                    FrameKind::FlowMapping => self.step_flow_mapping()?,
                    FrameKind::FlowSequence => self.step_flow_sequence()?,
                }
            }
            if self.outbox.len() > 0 || self.finished {
                return Ok(());
            }
        }
    }
}


/// The stream and document levels.
impl<'a, R: SexagesimalFloats> EventParser<'a, R> {
    fn step_stream(&mut self) -> (r: Result<(), YamlError>)
        requires
            old(self).ready(),
            old(self).outbox@.len() == 0,
            old(self).frames@.len() == 0,
        ensures
            old(self).same_config(final(self)),
            r is Ok ==> final(self).inv() && old(self).progress(final(self)),
            old(self).stream == StreamState::Start ==> r is Ok && final(self).outbox@ == seq![Event::StreamStart]
                && final(self).stream == StreamState::BetweenDocuments,
    {
        let ghost all0 = self.all_events();
        proof {
            assert(self.shapes() =~= Seq::<Shape>::empty());
        }
        match self.stream {
            StreamState::Start => {
                self.stream = StreamState::BetweenDocuments;
                self.outbox.push(Event::StreamStart);
                proof {
                    assert(self.shapes() =~= Seq::<Shape>::empty());
                    if self.clean@ {
                        assert(self.all_events() =~= all0.push(Event::StreamStart));
                        lemma_open_after_push(all0, Event::StreamStart);
                        assert(self.expected() =~= seq![Opener::Stream]);
                        assert(Seq::<Opener>::empty().push(Opener::Stream) =~= seq![Opener::Stream]);
                        assert(all0.len() == 0);
                        let all2 = self.all_events();
                        assert(all2 =~= seq![Event::StreamStart]);
                        assert(self.balance_inv());
                    }
                    assert(self.struct_inv());
                    assert(self.inv());
                    assert(old(self).progress(self));
                }
                Ok(())
            },
            StreamState::BetweenDocuments => {
                let ghost f0 = self.feed;
                self.feed.skip_trivia()?;
                let ghost f1 = self.feed;
                self.consume_directives()?;
                let ghost f2 = self.feed;
                let eof = self.at_eof()?;
                proof {
                    Feed::lemma_no_gain_trans(&f0, &f1, &f2);
                    Feed::lemma_no_gain_trans(&f0, &f2, &self.feed);
                }
                if eof {
                    let ghost all1 = self.all_events();
                    let ghost mut null_ev = Event::StreamStart;
                    if !self.saw_document {
                        self.saw_document = true;
                        self.outbox.push(Event::DocumentStart);
                        let ev = null_scalar_event(Span::new(0, 0, 1, 1));
                        self.outbox.push(ev);
                        self.outbox.push(Event::DocumentEnd);
                        proof {
                            null_ev = ev;
                            if self.clean@ {
                                let st = seq![Opener::Stream];
                                assert(all1 == all0);
                                assert(old(self).expected() =~= st);
                                lemma_open_after_push(all0, Event::DocumentStart);
                                lemma_open_after_push(all0.push(Event::DocumentStart), ev);
                                lemma_open_after_push(all0.push(Event::DocumentStart).push(ev), Event::DocumentEnd);
                                assert(st.push(Opener::Document).drop_last() =~= st);
                            }
                        }
                    }
                    let ghost all2 = self.all_events();
                    self.stream = StreamState::Finished;
                    self.finished = true;
                    self.outbox.push(Event::StreamEnd);
                    proof {
                        assert(self.shapes() =~= Seq::<Shape>::empty());
                        if self.clean@ {
                            assert(self.all_events() =~= all2.push(Event::StreamEnd));
                            lemma_open_after_push(all2, Event::StreamEnd);
                            assert(seq![Opener::Stream].drop_last() =~= Seq::<Opener>::empty());
                            assert(self.expected() =~= Seq::<Opener>::empty());
                            if old(self).saw_document {
                                assert(all2 == all0);
                                assert(all2 =~= old(self).all_events());
                            } else {
                                assert(all2 =~= all0.push(Event::DocumentStart).push(null_ev).push(Event::DocumentEnd));
                            }
                        }
                    }
                    return Ok(());
                }
                let ghost f3 = self.feed;
                let c = self.feed.class_at(0)?;
                let doc_start_span = match c {
                    Some(Class::DocumentStart) => {
                        let sp = self.feed.span_at0()?;
                        self.feed.pop()?;
                        sp
                    },
                    _ => None,
                };
                let ghost f4 = self.feed;
                self.feed.skip_trivia()?;
                let null_span = match doc_start_span {
                    Some(sp) => Some(sp),
                    None => self.feed.span_at0()?,
                };
                let mut frame = new_frame(FrameKind::Document, Vec::new());
                frame.null_span = null_span;
                self.frames.push(frame);
                self.saw_document = true;
                self.outbox.push(Event::DocumentStart);
                proof {
                    let sh1 = seq![(FrameKind::Document, FrameState::BeginEntry)];
                    assert(self.shapes() =~= sh1);
                    assert(sh1.drop_last() =~= Seq::<Shape>::empty());
                    assert(stack_weight(sh1, self.feed.front()) == 10);
                    if old(self).saw_document {
                        assert(self.feed.left() < old(self).feed.left()) by {
                            if f3.left() == f0.left() {
                                assert(old(self).feed.kept(&f3));
                                if f0.lookahead@.len() > 0 {
                                    assert(f3.lookahead@[0] == f0.lookahead@[0]) by {
                                        assert(f3.lookahead@.take(f0.lookahead@.len() as int)[0] == f0.lookahead@[0]);
                                    }
                                }
                            }
                        }
                    }
                    if self.clean@ {
                        let all2 = self.all_events();
                        assert(all2 =~= all0.push(Event::DocumentStart));
                        lemma_open_after_push(all0, Event::DocumentStart);
                        assert(old(self).expected() =~= seq![Opener::Stream]);
                        assert(self.expected() =~= seq![Opener::Stream, Opener::Document]);
                        assert(seq![Opener::Stream].push(Opener::Document) =~= seq![Opener::Stream, Opener::Document]);
                        assert forall|i: int| 0 <= i < all2.len() && (#[trigger] all2[i] is StreamEnd) implies i
                            == all2.len() - 1 && self.stream == StreamState::Finished by {
                            if i < all0.len() {
                                assert(all2[i] == all0[i]);
                            }
                        }
                        assert(self.balance_inv());
                    }
                    assert(shapes_ok(self.shapes()));
                    assert(self.struct_inv());
                    assert(self.inv());
                    assert(old(self).progress(self));
                }
                Ok(())
            },
            StreamState::Finished => {
                self.finished = true;
                assert(self.inv());
                assert(old(self).progress(self));
                Ok(())
            },
        }
    }
}


/// Queuing events together with the frames they open and close.
impl<'a, R: SexagesimalFloats> EventParser<'a, R> {
    /// Whether the innermost frame is a flow sequence waiting for an entry.
    spec fn top_is_flow_entry(&self) -> bool {
        let sh = self.shapes();
        sh.len() > 0 && sh.last().0 == FrameKind::FlowSequence && sh.last().1 == FrameState::BeginEntry
    }

    spec fn only_feed_changed(&self, after: &Self) -> bool {
        &&& after.frames == self.frames
        &&& after.outbox == self.outbox
        &&& after.stream == self.stream
        &&& after.saw_document == self.saw_document
        &&& after.anchors == self.anchors
        &&& after.finished == self.finished
        &&& self.same_config(after)
    }

    /// Like [`Self::only_feed_changed`], with frames compared by shape only.
    spec fn similar(&self, after: &Self) -> bool {
        &&& after.shapes() == self.shapes()
        &&& after.outbox == self.outbox
        &&& after.stream == self.stream
        &&& after.saw_document == self.saw_document
        &&& after.anchors == self.anchors
        &&& after.finished == self.finished
        &&& self.same_config(after)
    }

    proof fn lemma_feed_only(&self, after: &Self)
        requires
            self.ready(),
            self.similar(after),
            after.feed.wf(),
            self.frames@.len() > 0,
            after.feed.left() <= self.feed.left(),
            !self.top_is_flow_entry(),
        ensures
            after.ready(),
            after.phi() + 16 * (self.feed.left() - after.feed.left()) == self.phi(),
    {
        lemma_stack_front(self.shapes(), self.feed.front());
        lemma_stack_front(self.shapes(), after.feed.front());
        assert(after.shapes() == self.shapes());
        assert(after.all_events() == self.all_events());
    }

    /// Queues a scalar or alias event inside the innermost frame.
    fn emit_leaf(&mut self, e: Event)
        requires
            old(self).ready(),
            old(self).frames@.len() > 0,
            e is Scalar || e is Alias,
        ensures
            final(self).ready(),
            final(self).outbox@ == old(self).outbox@.push(e),
            final(self).frames == old(self).frames,
            final(self).feed == old(self).feed,
            final(self).stream == old(self).stream,
            final(self).saw_document == old(self).saw_document,
            final(self).anchors == old(self).anchors,
            final(self).version == old(self).version,
            final(self).version_pinned == old(self).version_pinned,
            old(self).same_config(final(self)),
            final(self).phi() == old(self).phi(),
            final(self).rank() == old(self).rank(),
    {
        let ghost all = self.all_events();
        self.outbox.push(e);
        proof {
            if self.clean@ {
                let all2 = self.all_events();
                assert(all2 =~= all.push(e));
                lemma_open_after_push(all, e);
                lemma_expected_pop(self.stream, self.shapes());
                assert forall|i: int| 0 <= i < all2.len() && (#[trigger] all2[i] is StreamEnd) implies i == all2.len()
                    - 1 && self.stream == StreamState::Finished by {
                    if i < all.len() {
                        assert(all2[i] == all[i]);
                    }
                }
            }
        }
    }

    /// Pushes a frame for a new collection and queues its start event.
    fn open_collection(&mut self, kind: FrameKind, pending: Vec<(String, Span)>, e: Event)
        requires
            old(self).ready(),
            old(self).frames@.len() > 0,
            kind != FrameKind::Document,
            kind == FrameKind::BlockMapping || kind == FrameKind::FlowMapping ==> e is MappingStart,
            kind == FrameKind::BlockSequence || kind == FrameKind::FlowSequence ==> e is SequenceStart,
            !old(self).top_is_flow_entry(),
        ensures
            final(self).ready(),
            final(self).outbox@ == old(self).outbox@.push(e),
            final(self).shapes() == old(self).shapes().push((kind, FrameState::BeginEntry)),
            final(self).feed == old(self).feed,
            final(self).stream == old(self).stream,
            final(self).saw_document == old(self).saw_document,
            final(self).anchors == old(self).anchors,
            old(self).same_config(final(self)),
            final(self).phi() == old(self).phi() + shape_weight((kind, FrameState::BeginEntry), old(self).feed.front()),
    {
        let ghost all = self.all_events();
        let ghost sh = self.shapes();
        self.frames.push(new_frame(kind, pending));
        self.outbox.push(e);
        proof {
            let s = (kind, FrameState::BeginEntry);
            assert(self.shapes() =~= sh.push(s));
            lemma_weight_push(sh, s, self.feed.front());
            let sh2 = self.shapes();
            assert forall|i: int| 0 <= i < sh2.len() implies ((#[trigger] sh2[i]).0 == FrameKind::Document) == (i == 0) by {
                if i < sh.len() {
                    assert(sh2[i] == sh[i]);
                }
            }
            assert(shapes_ok(sh2)) by {
                assert forall|i: int| 0 <= i < sh2.len() - 1 implies !((#[trigger] sh2[i]).0 == FrameKind::FlowSequence
                    && sh2[i].1 == FrameState::BeginEntry) by {
                    assert(sh2[i] == sh[i]);
                }
                assert forall|i: int| 0 <= i < sh2.len() && ((#[trigger] sh2[i]).0 == FrameKind::Document
                    || sh2[i].0 == FrameKind::FlowSequence) implies sh2[i].1 != FrameState::ExpectColon by {
                    if i < sh.len() {
                        assert(sh2[i] == sh[i]);
                    }
                }
                assert forall|i: int| 0 <= i < sh2.len() && (#[trigger] sh2[i]).0 == FrameKind::BlockSequence
                    implies sh2[i].1 == FrameState::BeginEntry by {
                    if i < sh.len() {
                        assert(sh2[i] == sh[i]);
                    }
                }
            }
            if self.clean@ {
                let all2 = self.all_events();
                assert(all2 =~= all.push(e));
                lemma_open_after_push(all, e);
                lemma_expected_pop(self.stream, sh);
                lemma_expected_push(self.stream, sh, s);
                assert forall|i: int| 0 <= i < all2.len() && (#[trigger] all2[i] is StreamEnd) implies i == all2.len()
                    - 1 && self.stream == StreamState::Finished by {
                    if i < all.len() {
                        assert(all2[i] == all[i]);
                    }
                }
            }
        }
    }

    /// Pops the innermost collection frame, registers its anchors and queues its end event.
    fn close_collection(&mut self, e: Event) -> (r: Result<(), YamlError>)
        requires
            old(self).ready(),
            old(self).frames@.len() > 0,
            old(self).shapes().last().0 != FrameKind::Document,
            old(self).shapes().last().0 == FrameKind::BlockMapping || old(self).shapes().last().0
                == FrameKind::FlowMapping ==> e is MappingEnd,
            old(self).shapes().last().0 == FrameKind::BlockSequence || old(self).shapes().last().0
                == FrameKind::FlowSequence ==> e is SequenceEnd,
        ensures
            old(self).same_config(final(self)),
            r is Ok ==> final(self).ready() && final(self).outbox@ == old(self).outbox@.push(e)
                && final(self).phi() + 1 <= old(self).phi(),
            r is Ok <==> names_fresh(text_views(old(self).anchors@), name_views(old(self).frames@.last().pending_anchors@)),
            r matches Err(err) ==> err.kind == ErrorKind::InvalidAnchor,
    {
        let ghost all = self.all_events();
        let ghost sh = self.shapes();
        let frame = self.frames.pop().unwrap();
        register_names(&mut self.anchors, &frame.pending_anchors, self.source)?;
        self.outbox.push(e);
        proof {
            assert(self.shapes() =~= sh.drop_last());
            lemma_weight_pop(sh, self.feed.front());
            lemma_weight_front(sh.last(), self.feed.front());
            let sh2 = self.shapes();
            assert(shapes_ok(sh2)) by {
                assert forall|i: int| 0 <= i < sh2.len() implies ((#[trigger] sh2[i]).0 == FrameKind::Document) == (i
                    == 0) by {
                    assert(sh2[i] == sh[i]);
                }
                assert forall|i: int| 0 <= i < sh2.len() && ((#[trigger] sh2[i]).0 == FrameKind::Document
                    || sh2[i].0 == FrameKind::FlowSequence) implies sh2[i].1 != FrameState::ExpectColon by {
                    assert(sh2[i] == sh[i]);
                }
                assert forall|i: int| 0 <= i < sh2.len() && (#[trigger] sh2[i]).0 == FrameKind::BlockSequence
                    implies sh2[i].1 == FrameState::BeginEntry by {
                    assert(sh2[i] == sh[i]);
                }
                assert forall|i: int| 0 <= i < sh2.len() - 1 implies !((#[trigger] sh2[i]).0 == FrameKind::FlowSequence
                    && sh2[i].1 == FrameState::BeginEntry) by {
                    assert(sh2[i] == sh[i]);
                }
            }
            assert(sh.len() > 1) by {
                assert(sh[0].0 == FrameKind::Document);
            }
            if self.clean@ {
                let all2 = self.all_events();
                assert(all2 =~= all.push(e));
                lemma_open_after_push(all, e);
                lemma_expected_pop(self.stream, sh);
                assert forall|i: int| 0 <= i < all2.len() && (#[trigger] all2[i] is StreamEnd) implies i == all2.len()
                    - 1 && self.stream == StreamState::Finished by {
                    if i < all.len() {
                        assert(all2[i] == all[i]);
                    }
                }
            }
        }
        Ok(())
    }
}


/// Values: anchor and tag prefixes, then every value shape.
impl<'a, R: SexagesimalFloats> EventParser<'a, R> {
    /// Parses one value: queues a leaf event, or pushes a collection frame and queues its start
    /// event; the end event comes once the contents are exhausted.
    #[verifier::rlimit(60)]
    fn begin_value(&mut self) -> (r: Result<(), YamlError>)
        requires
            old(self).ready(),
            old(self).frames@.len() > 0,
            !old(self).top_is_flow_entry(),
        ensures
            old(self).same_config(final(self)),
            r is Ok ==> final(self).ready() && final(self).outbox@.len() == old(self).outbox@.len() + 1
                && final(self).phi() + final(self).outbox@.len() <= old(self).phi() + old(self).outbox@.len() + 2,
            r is Ok && final(self).outbox@.last() is Alias ==> text_views(old(self).anchors@).contains(
                final(self).outbox@.last()->Alias_0.name@,
            ),
    {
        let ghost s0 = *self;
        self.feed.skip_trivia()?;
        proof {
            s0.lemma_feed_only(self);
        }
        let mut anchor: Option<String> = None;
        let mut tag: Option<String> = None;
        let mut pending: Vec<(String, Span)> = Vec::new();
        loop
            invariant
                *old(self) == s0,
                s0.ready(),
                s0.frames@.len() > 0,
                !s0.top_is_flow_entry(),
                s0.only_feed_changed(self),
                self.feed.wf(),
                self.feed.left() <= s0.feed.left(),
            decreases self.feed.left(),
        {
            let c = self.feed.class_at(0)?;
            match c {
                Some(Class::Anchor) => {
                    let t = match self.feed.pop()? {
                        Some(t) => t,
                        None => {
                            return Err(self.eof_error());
                        },
                    };
                    if let ParserToken::Anchor(name) = t.token {
                        if anchor.is_none() {
                            anchor = Some(name.clone());
                        }
                        pending.push((name, t.span));
                    }
                    self.feed.skip_trivia()?;
                },
                Some(Class::Tag) => {
                    let t = match self.feed.pop()? {
                        Some(t) => t,
                        None => {
                            return Err(self.eof_error());
                        },
                    };
                    if let ParserToken::Tag(name) = t.token {
                        if tag.is_none() {
                            tag = Some(name);
                        }
                    }
                    self.feed.skip_trivia()?;
                },
                _ => {
                    break;
                },
            }
        }
        proof {
            s0.lemma_feed_only(self);
        }
        let token = match self.feed.token_at0()? {
            Some(t) => t,
            None => {
                return Err(self.eof_error());
            },
        };
        let span = token.span;
        let starts_mapping = match &token.token {
            ParserToken::Scalar { .. } => {
                let c1 = self.feed.class_at(1)?;
                match c1 {
                    Some(Class::Colon) => true,
                    _ => false,
                }
            },
            _ => false,
        };
        proof {
            s0.lemma_feed_only(self);
        }
        let ghost s1 = *self;
        let meta = NodeMeta { anchor: copy_text(&anchor), tag: copy_text(&tag), span };
        match token.token {
            ParserToken::Scalar { raw, style, .. } => {
                if starts_mapping {
                    self.open_collection(FrameKind::BlockMapping, pending, Event::MappingStart(meta));
                } else {
                    self.reject_merge_key(&raw, span)?;
                    let value = self.resolve(&raw, style, span)?;
                    self.feed.pop()?;
                    proof {
                        s1.lemma_feed_only(self);
                    }
                    register_names(&mut self.anchors, &pending, self.source)?;
                    self.emit_leaf(Event::Scalar(ScalarEvent { value, style, raw, anchor, tag, span }));
                }
            },
            ParserToken::BlockScalar { indicator, value } => {
                let style = match indicator {
                    BlockIndicator::Literal => ScalarStyle::BlockLiteral,
                    BlockIndicator::Folded => ScalarStyle::BlockChomped,
                };
                self.feed.pop()?;
                proof {
                    s1.lemma_feed_only(self);
                }
                register_names(&mut self.anchors, &pending, self.source)?;
                let raw = value.clone();
                self.emit_leaf(Event::Scalar(ScalarEvent { value: ScalarValue::String(value), style, raw, anchor, tag, span }));
            },
            ParserToken::Alias(name) => {
                if !knows(&self.anchors, name.as_str()) {
                    return Err(self.error_at(span.start, ErrorKind::UnknownAnchor, "unknown anchor"));
                }
                proof {
                    let i = choose|i: int| 0 <= i < self.anchors@.len() && (#[trigger] self.anchors@[i])@ == name@;
                    assert(self.anchors == s0.anchors);
                    assert(text_views(s0.anchors@)[i] == name@);
                }
                self.feed.pop()?;
                proof {
                    s1.lemma_feed_only(self);
                }
                register_names(&mut self.anchors, &pending, self.source)?;
                self.emit_leaf(Event::Alias(AliasEvent { name, anchor, tag, span }));
            },
            ParserToken::LeftBrace => {
                self.feed.pop()?;
                proof {
                    s1.lemma_feed_only(self);
                }
                self.open_collection(FrameKind::FlowMapping, pending, Event::MappingStart(meta));
            },
            ParserToken::LeftBracket => {
                self.feed.pop()?;
                proof {
                    s1.lemma_feed_only(self);
                }
                self.open_collection(FrameKind::FlowSequence, pending, Event::SequenceStart(meta));
            },
            ParserToken::SequenceEntry => {
                self.open_collection(FrameKind::BlockSequence, pending, Event::SequenceStart(meta));
            },
            ParserToken::MappingKey => {
                self.open_collection(FrameKind::BlockMapping, pending, Event::MappingStart(meta));
            },
            _ => {
                return Err(self.error_at(span.start, ErrorKind::UnexpectedCharacter, "unexpected token in value position"));
            },
        }
        Ok(())
    }
}


/// Frame-state changes and lookahead decisions.
impl<'a, R: SexagesimalFloats> EventParser<'a, R> {
    spec fn only_frames_changed(&self, after: &Self) -> bool {
        &&& after.feed == self.feed
        &&& after.outbox == self.outbox
        &&& after.stream == self.stream
        &&& after.saw_document == self.saw_document
        &&& after.anchors == self.anchors
        &&& after.finished == self.finished
        &&& self.same_config(after)
    }

    /// A legal change of the innermost frame's state keeps the parser ready and moves the
    /// potential by the difference of the two states' weights.
    proof fn lemma_top_state(&self, after: &Self, st: FrameState)
        requires
            self.ready(),
            self.frames@.len() > 0,
            self.only_frames_changed(after),
            after.shapes() == self.shapes().drop_last().push((self.shapes().last().0, st)),
            (self.shapes().last().0 == FrameKind::Document || self.shapes().last().0 == FrameKind::FlowSequence)
                ==> st != FrameState::ExpectColon,
            self.shapes().last().0 == FrameKind::BlockSequence ==> st == FrameState::BeginEntry,
        ensures
            after.ready(),
            after.phi() + shape_weight(self.shapes().last(), self.feed.front()) == self.phi() + shape_weight(
                (self.shapes().last().0, st),
                self.feed.front(),
            ),
            after.rank() == (if st == FrameState::AfterValue { 1nat } else { 0nat }),
            after.shapes().len() == self.shapes().len(),
            after.shapes().last() == (self.shapes().last().0, st),
    {
        let sh = self.shapes();
        let s = (sh.last().0, st);
        let sh2 = after.shapes();
        lemma_weight_top(sh, s, self.feed.front());
        lemma_expected_top(self.stream, sh, s);
        assert(shapes_ok(sh2)) by {
            assert forall|i: int| 0 <= i < sh2.len() implies ((#[trigger] sh2[i]).0 == FrameKind::Document) == (i == 0) by {
                if i < sh.len() - 1 {
                    assert(sh2[i] == sh[i]);
                }
            }
            assert forall|i: int| 0 <= i < sh2.len() && ((#[trigger] sh2[i]).0 == FrameKind::Document || sh2[i].0
                == FrameKind::FlowSequence) implies sh2[i].1 != FrameState::ExpectColon by {
                if i < sh.len() - 1 {
                    assert(sh2[i] == sh[i]);
                }
            }
            assert forall|i: int| 0 <= i < sh2.len() && (#[trigger] sh2[i]).0 == FrameKind::BlockSequence implies sh2[i].1
                == FrameState::BeginEntry by {
                if i < sh.len() - 1 {
                    assert(sh2[i] == sh[i]);
                }
            }
            assert forall|i: int| 0 <= i < sh2.len() - 1 implies !((#[trigger] sh2[i]).0 == FrameKind::FlowSequence
                && sh2[i].1 == FrameState::BeginEntry) by {
                assert(sh2[i] == sh[i]);
            }
        }
        assert(after.all_events() == self.all_events());
    }

    fn top_state(&self) -> (st: FrameState)
        requires
            self.frames@.len() > 0,
        ensures
            st == self.shapes().last().1,
    {
        self.frames[self.frames.len() - 1].state
    }

    /// Whether a value follows a mapping key at `key_col`/`key_line`: on the key's line anything
    /// but a document marker; on a later line a sequence entry at the key's column or anything
    /// else indented further.
    fn value_follows_key(&mut self, key_col: usize, key_line: usize) -> (r: Result<bool, YamlError>)
        requires
            old(self).feed.wf(),
        ensures
            final(self).feed.wf(),
            old(self).feed.kept(&final(self).feed),
            old(self).only_feed_changed(final(self)),
    {
        let c = self.feed.class_at(0);
        let ghost f1 = self.feed;
        proof {
            Feed::lemma_kept_refl(&f1);
        }
        let sp = if c.is_ok() { self.feed.span_at0() } else { Ok(None) };
        proof {
            Feed::lemma_kept_trans(&old(self).feed, &f1, &self.feed);
        }
        let (class, span) = match (c?, sp?) {
            (Some(class), Some(span)) => (class, span),
            _ => {
                return Ok(false);
            },
        };
        if span.line == key_line {
            return Ok(!(class == Class::DocumentEnd || class == Class::DocumentStart));
        }
        match class {
            Class::DocumentStart | Class::DocumentEnd => Ok(false),
            Class::SequenceEntry => Ok(span.column >= key_col),
            _ => Ok(span.column > key_col),
        }
    }

    /// Whether a value follows a sequence dash at `dash_col`/`dash_line`.
    fn value_follows_dash(&mut self, dash_col: usize, dash_line: usize) -> (r: Result<bool, YamlError>)
        requires
            old(self).feed.wf(),
        ensures
            final(self).feed.wf(),
            old(self).feed.kept(&final(self).feed),
            old(self).only_feed_changed(final(self)),
    {
        let c = self.feed.class_at(0);
        let ghost f1 = self.feed;
        proof {
            Feed::lemma_kept_refl(&f1);
        }
        let sp = if c.is_ok() { self.feed.span_at0() } else { Ok(None) };
        proof {
            Feed::lemma_kept_trans(&old(self).feed, &f1, &self.feed);
        }
        let (class, span) = match (c?, sp?) {
            (Some(class), Some(span)) => (class, span),
            _ => {
                return Ok(false);
            },
        };
        if span.line == dash_line {
            return Ok(!(class == Class::Comma || class == Class::RightBrace || class == Class::RightBracket));
        }
        match class {
            Class::DocumentStart | Class::DocumentEnd => Ok(false),
            _ => Ok(span.column > dash_col),
        }
    }
}


/// One step of the innermost frame.
impl<'a, R: SexagesimalFloats> EventParser<'a, R> {
    fn step_document(&mut self) -> (r: Result<(), YamlError>)
        requires
            old(self).ready(),
            old(self).outbox@.len() == 0,
            old(self).frames@.len() > 0,
            old(self).shapes().last().0 == FrameKind::Document,
        ensures
            old(self).same_config(final(self)),
            r is Ok ==> final(self).inv() && old(self).progress(final(self)),
    {
        let ghost s0 = *self;
        proof {
            assert(s0.shapes().len() == 1) by {
                let sh = s0.shapes();
                assert(sh[sh.len() - 1].0 == FrameKind::Document);
            }
        }
        match self.top_state() {
            FrameState::BeginEntry => {
                self.feed.skip_trivia()?;
                let eof = self.at_eof()?;
                let empty = if eof {
                    true
                } else {
                    match self.feed.class_at(0)? {
                        Some(Class::DocumentEnd) => true,
                        _ => false,
                    }
                };
                proof {
                    s0.lemma_feed_only(self);
                }
                let ghost s1 = *self;
                set_top_state(&mut self.frames, FrameState::AfterValue);
                proof {
                    s1.lemma_top_state(self, FrameState::AfterValue);
                }
                if empty {
                    let n = self.frames.len();
                    let span = match self.frames[n - 1].null_span {
                        Some(sp) => sp,
                        None => Span::new(0, 0, 1, 1),
                    };
                    self.emit_leaf(null_scalar_event(span));
                } else {
                    self.begin_value()?;
                }
                Ok(())
            },
            FrameState::AfterValue => {
                self.feed.skip_trivia()?;
                match self.feed.class_at(0)? {
                    Some(Class::DocumentEnd) => {
                        self.feed.pop()?;
                    },
                    _ => {},
                }
                self.feed.skip_trivia()?;
                self.consume_directives()?;
                let eof = self.at_eof()?;
                if !eof {
                    match self.feed.class_at(0)? {
                        Some(Class::DocumentStart) => {},
                        _ => {
                            return Err(self.error_here(ErrorKind::TrailingContent, "expected '---' before next document"));
                        },
                    }
                }
                proof {
                    s0.lemma_feed_only(self);
                }
                let ghost s1 = *self;
                let ghost all = self.all_events();
                self.outbox.push(Event::DocumentEnd);
                self.frames.pop();
                proof {
                    let sh = s1.shapes();
                    assert(self.shapes() =~= sh.drop_last());
                    assert(self.shapes() =~= Seq::<Shape>::empty());
                    assert(sh.drop_last() =~= Seq::<Shape>::empty());
                    if self.clean@ {
                        let all2 = self.all_events();
                        assert(all2 =~= all.push(Event::DocumentEnd));
                        lemma_open_after_push(all, Event::DocumentEnd);
                        lemma_expected_pop(self.stream, sh);
                        assert forall|i: int| 0 <= i < all2.len() && (#[trigger] all2[i] is StreamEnd) implies i
                            == all2.len() - 1 && self.stream == StreamState::Finished by {
                            if i < all.len() {
                                assert(all2[i] == all[i]);
                            }
                        }
                    }
                }
                Ok(())
            },
            FrameState::ExpectColon => {
                proof {
                    let sh = s0.shapes();
                    assert(sh[sh.len() - 1].1 != FrameState::ExpectColon);
                }
                Ok(())
            },
        }
    }

    fn step_block_sequence(&mut self) -> (r: Result<(), YamlError>)
        requires
            old(self).ready(),
            old(self).outbox@.len() == 0,
            old(self).frames@.len() > 0,
            old(self).shapes().last().0 == FrameKind::BlockSequence,
        ensures
            old(self).same_config(final(self)),
            r is Ok ==> final(self).inv() && old(self).progress(final(self)),
    {
        let ghost s0 = *self;
        self.feed.skip_trivia()?;
        let c = self.feed.class_at(0)?;
        proof {
            s0.lemma_feed_only(self);
        }
        match c {
            Some(Class::SequenceEntry) => {},
            _ => {
                return self.close_collection(Event::SequenceEnd);
            },
        }
        let token = match self.feed.token_at0()? {
            Some(t) => t,
            None => {
                return Err(self.eof_error());
            },
        };
        let n = self.frames.len();
        match self.frames[n - 1].entry_col {
            Some(col) => {
                if token.span.column != col {
                    proof {
                        s0.lemma_feed_only(self);
                    }
                    return self.close_collection(Event::SequenceEnd);
                }
            },
            None => {
                set_top_entry_col(&mut self.frames, token.span.column);
            },
        }
        let ghost s1 = *self;
        self.feed.pop()?;
        let follows = self.value_follows_dash(token.span.column, token.span.line)?;
        proof {
            assert(s1.shapes() == s0.shapes());
            s0.lemma_feed_only(&s1);
            s1.lemma_feed_only(self);
        }
        if follows {
            self.begin_value()?;
        } else {
            self.emit_leaf(null_scalar_event(token.span));
        }
        Ok(())
    }
}


/// Mapping and flow steps.
impl<'a, R: SexagesimalFloats> EventParser<'a, R> {
    /// Queues a bare block mapping key.
    fn emit_key_scalar(&mut self, token: &TokenWithSpan) -> (r: Result<(), YamlError>)
        requires
            old(self).ready(),
            old(self).frames@.len() > 0,
        ensures
            old(self).same_config(final(self)),
            r is Ok ==> final(self).ready() && final(self).outbox@.len() <= old(self).outbox@.len() + 1
                && final(self).phi() == old(self).phi() && final(self).rank() == old(self).rank()
                && final(self).feed == old(self).feed && final(self).frames == old(self).frames,
            r is Ok ==> (token.token matches ParserToken::Scalar { raw, style, .. } ==> final(self).outbox@.len()
                == old(self).outbox@.len() + 1 && final(self).outbox@.take(old(self).outbox@.len() as int)
                == old(self).outbox@ && (final(self).outbox@.last() matches Event::Scalar(ev) && ev.raw@ == raw@
                && ev.style == style && ev.span == token.span && ev.anchor is None && ev.tag is None)),
            r is Ok ==> (!(token.token is Scalar) ==> final(self).outbox == old(self).outbox),
            r is Err ==> (token.token matches ParserToken::Scalar { raw, .. } && ((old(self).merge_keys && raw@ == "<<"@)
                || (old(self).strict_version && !old(self).version_pinned))),
    {
        if let ParserToken::Scalar { raw, style, .. } = &token.token {
            self.reject_merge_key(raw, token.span)?;
            let value = self.resolve(raw, *style, token.span)?;
            let ghost before = self.outbox@;
            self.emit_leaf(Event::Scalar(ScalarEvent {
                value,
                style: *style,
                raw: raw.clone(),
                anchor: None,
                tag: None,
                span: token.span,
            }));
            assert(self.outbox@.take(before.len() as int) =~= before);
        }
        Ok(())
    }

    /// A block mapping waiting for its next key.
    #[verifier::rlimit(50)]
    fn block_mapping_key(&mut self) -> (r: Result<(), YamlError>)
        requires
            old(self).ready(),
            old(self).outbox@.len() == 0,
            old(self).frames@.len() > 0,
            old(self).shapes().last().0 == FrameKind::BlockMapping,
            old(self).shapes().last().1 == FrameState::BeginEntry,
        ensures
            old(self).same_config(final(self)),
            r is Ok ==> final(self).inv() && old(self).progress(final(self)),
    {
        let ghost s0 = *self;
        self.feed.skip_trivia()?;
        let c = self.feed.class_at(0)?;
        proof {
            s0.lemma_feed_only(self);
        }
        match c {
            Some(Class::MappingKey) | Some(Class::Scalar) => {},
            _ => {
                return self.close_collection(Event::MappingEnd);
            },
        }
        let token = match self.feed.token_at0()? {
            Some(t) => t,
            None => {
                return Err(self.eof_error());
            },
        };
        proof {
            s0.lemma_feed_only(self);
        }
        let n = self.frames.len();
        match self.frames[n - 1].entry_col {
            Some(col) => {
                if token.span.column != col {
                    return self.close_collection(Event::MappingEnd);
                }
            },
            None => {
                set_top_entry_col(&mut self.frames, token.span.column);
            },
        }
        let ghost s1 = *self;
        proof {
            assert(s1.shapes() == s0.shapes());
            s0.lemma_feed_only(&s1);
        }
        match &token.token {
            ParserToken::MappingKey => self.explicit_key(&token),
            _ => self.plain_key(&token),
        }
    }

    /// A `?` key: the key is a value of its own.
    fn explicit_key(&mut self, token: &TokenWithSpan) -> (r: Result<(), YamlError>)
        requires
            old(self).ready(),
            old(self).outbox@.len() == 0,
            old(self).frames@.len() > 0,
            old(self).shapes().last() == (FrameKind::BlockMapping, FrameState::BeginEntry),
            old(self).feed.lookahead@.len() > 0,
        ensures
            old(self).same_config(final(self)),
            r is Ok ==> final(self).inv() && old(self).progress(final(self)),
    {
        let ghost s1 = *self;
        self.feed.pop()?;
        self.feed.skip_trivia()?;
        proof {
            s1.lemma_feed_only(self);
        }
        set_top_key(&mut self.frames, token.span.column, token.span.line);
        let ghost s2 = *self;
        proof {
            assert(s2.shapes() == s1.shapes());
            s1.lemma_feed_only(&s2);
        }
        set_top_state(&mut self.frames, FrameState::ExpectColon);
        proof {
            s2.lemma_top_state(self, FrameState::ExpectColon);
        }
        self.begin_value()
    }

    /// A plain scalar key, queued at once.
    fn plain_key(&mut self, token: &TokenWithSpan) -> (r: Result<(), YamlError>)
        requires
            old(self).ready(),
            old(self).outbox@.len() == 0,
            old(self).frames@.len() > 0,
            old(self).shapes().last() == (FrameKind::BlockMapping, FrameState::BeginEntry),
            old(self).feed.lookahead@.len() > 0,
        ensures
            old(self).same_config(final(self)),
            r is Ok ==> final(self).inv() && old(self).progress(final(self)),
            !(token.token matches ParserToken::Scalar { raw, .. } && old(self).merge_keys && raw@ == "<<"@) && !(
            old(self).strict_version && !old(self).version_pinned) ==> r is Ok,
    {
        self.emit_key_scalar(token)?;
        let ghost s2 = *self;
        self.feed.pop()?;
        proof {
            s2.lemma_feed_only(self);
        }
        set_top_key(&mut self.frames, token.span.column, token.span.line);
        let ghost s3 = *self;
        proof {
            assert(s3.shapes() == s2.shapes());
            s2.lemma_feed_only(&s3);
        }
        set_top_state(&mut self.frames, FrameState::ExpectColon);
        proof {
            s3.lemma_top_state(self, FrameState::ExpectColon);
        }
        Ok(())
    }

    /// A block mapping key waiting for its `:` and value.
    fn block_mapping_value(&mut self) -> (r: Result<(), YamlError>)
        requires
            old(self).ready(),
            old(self).outbox@.len() == 0,
            old(self).frames@.len() > 0,
            old(self).shapes().last().0 == FrameKind::BlockMapping,
            old(self).shapes().last().1 == FrameState::ExpectColon,
        ensures
            old(self).same_config(final(self)),
            r is Ok ==> final(self).inv() && old(self).progress(final(self)),
    {
        let ghost s0 = *self;
        self.feed.skip_trivia()?;
        let c = self.feed.class_at(0)?;
        match c {
            None => {
                return Err(self.error_here(ErrorKind::UnexpectedEof, "expected colon after mapping key"));
            },
            Some(Class::Colon) => {},
            Some(_) => {
                return Err(self.error_here(ErrorKind::UnexpectedCharacter, "expected colon after mapping key"));
            },
        }
        let colon_span = match self.feed.span_at0()? {
            Some(sp) => sp,
            None => Span::new(0, 0, 1, 1),
        };
        self.feed.pop()?;
        self.feed.skip_trivia()?;
        proof {
            s0.lemma_feed_only(self);
        }
        let n = self.frames.len();
        let key_col = self.frames[n - 1].key_col;
        let key_line = self.frames[n - 1].key_line;
        let ghost s1 = *self;
        set_top_state(&mut self.frames, FrameState::AfterValue);
        proof {
            s1.lemma_top_state(self, FrameState::AfterValue);
        }
        let ghost s2 = *self;
        let follows = self.value_follows_key(key_col, key_line)?;
        proof {
            s2.lemma_feed_only(self);
        }
        if follows {
            self.begin_value()?;
        } else {
            self.emit_leaf(null_scalar_event(colon_span));
        }
        Ok(())
    }

    fn step_block_mapping(&mut self) -> (r: Result<(), YamlError>)
        requires
            old(self).ready(),
            old(self).outbox@.len() == 0,
            old(self).frames@.len() > 0,
            old(self).shapes().last().0 == FrameKind::BlockMapping,
        ensures
            old(self).same_config(final(self)),
            r is Ok ==> final(self).inv() && old(self).progress(final(self)),
    {
        let ghost s0 = *self;
        match self.top_state() {
            FrameState::BeginEntry => self.block_mapping_key(),
            FrameState::ExpectColon => self.block_mapping_value(),
            FrameState::AfterValue => {
                set_top_state(&mut self.frames, FrameState::BeginEntry);
                proof {
                    s0.lemma_top_state(self, FrameState::BeginEntry);
                }
                Ok(())
            },
        }
    }

    fn step_flow_sequence(&mut self) -> (r: Result<(), YamlError>)
        requires
            old(self).ready(),
            old(self).outbox@.len() == 0,
            old(self).frames@.len() > 0,
            old(self).shapes().last().0 == FrameKind::FlowSequence,
        ensures
            old(self).same_config(final(self)),
            r is Ok ==> final(self).inv() && old(self).progress(final(self)),
    {
        let ghost s0 = *self;
        match self.top_state() {
            FrameState::BeginEntry => {
                self.feed.skip_trivia()?;
                let c = self.feed.class_at(0)?;
                match c {
                    None => {
                        return self.close_collection(Event::SequenceEnd);
                    },
                    Some(Class::RightBracket) => {
                        self.feed.pop()?;
                        return self.close_collection(Event::SequenceEnd);
                    },
                    Some(Class::Comma) => {
                        self.feed.pop()?;
                    },
                    Some(_) => {
                        let ghost s1 = *self;
                        set_top_state(&mut self.frames, FrameState::AfterValue);
                        proof {
                            s1.lemma_top_state(self, FrameState::AfterValue);
                        }
                        self.begin_value()?;
                    },
                }
                Ok(())
            },
            FrameState::AfterValue => {
                self.feed.skip_trivia()?;
                let c = self.feed.class_at(0)?;
                proof {
                    s0.lemma_feed_only(self);
                }
                match c {
                    None => {
                        return self.close_collection(Event::SequenceEnd);
                    },
                    Some(Class::Comma) | Some(Class::RightBracket) => {
                        let ghost s1 = *self;
                        set_top_state(&mut self.frames, FrameState::BeginEntry);
                        proof {
                            s1.lemma_top_state(self, FrameState::BeginEntry);
                        }
                        Ok(())
                    },
                    Some(_) => {
                        return Err(self.error_here(ErrorKind::UnexpectedCharacter, "expected comma or ] in flow sequence"));
                    },
                }
            },
            FrameState::ExpectColon => {
                proof {
                    let sh = s0.shapes();
                    assert(sh[sh.len() - 1].1 != FrameState::ExpectColon);
                }
                Ok(())
            },
        }
    }

    /// Queues a flow mapping key: a scalar with optional `&anchor` and `!tag` prefixes.
    fn parse_flow_key(&mut self) -> (r: Result<(), YamlError>)
        requires
            old(self).ready(),
            old(self).frames@.len() > 0,
            old(self).shapes().last().0 == FrameKind::FlowMapping,
        ensures
            old(self).same_config(final(self)),
            r is Ok ==> final(self).ready() && final(self).outbox@.len() == old(self).outbox@.len() + 1
                && final(self).phi() + 16 <= old(self).phi() && final(self).frames == old(self).frames,
    {
        let ghost s0 = *self;
        self.feed.skip_trivia()?;
        let mut anchor: Option<String> = None;
        let mut anchor_span: Option<Span> = None;
        let mut tag: Option<String> = None;
        loop
            invariant
                *old(self) == s0,
                s0.ready(),
                s0.frames@.len() > 0,
                s0.shapes().last().0 == FrameKind::FlowMapping,
                s0.only_feed_changed(self),
                self.feed.wf(),
                self.feed.left() <= s0.feed.left(),
            decreases self.feed.left(),
        {
            proof {
                s0.lemma_feed_only(self);
            }
            let token = match self.feed.token_at0()? {
                Some(t) => t,
                None => {
                    return Err(self.eof_error());
                },
            };
            match token.token {
                ParserToken::Anchor(name) => {
                    self.feed.pop()?;
                    if anchor.is_none() {
                        anchor = Some(name);
                        anchor_span = Some(token.span);
                    }
                    self.feed.skip_trivia()?;
                },
                ParserToken::Tag(name) => {
                    self.feed.pop()?;
                    if tag.is_none() {
                        tag = Some(name);
                    }
                    self.feed.skip_trivia()?;
                },
                ParserToken::Scalar { raw, style, .. } => {
                    self.reject_merge_key(&raw, token.span)?;
                    let value = self.resolve(&raw, style, token.span)?;
                    self.feed.pop()?;
                    proof {
                        s0.lemma_feed_only(self);
                    }
                    if let (Some(name), Some(span)) = (&anchor, anchor_span) {
                        let mut names: Vec<(String, Span)> = Vec::new();
                        names.push((name.clone(), span));
                        register_names(&mut self.anchors, &names, self.source)?;
                    }
                    self.emit_leaf(Event::Scalar(ScalarEvent { value, style, raw, anchor, tag, span: token.span }));
                    return Ok(());
                },
                _ => {
                    return Err(self.error_at(token.span.start, ErrorKind::UnexpectedCharacter, "invalid key in flow mapping"));
                },
            }
        }
    }

    fn step_flow_mapping(&mut self) -> (r: Result<(), YamlError>)
        requires
            old(self).ready(),
            old(self).outbox@.len() == 0,
            old(self).frames@.len() > 0,
            old(self).shapes().last().0 == FrameKind::FlowMapping,
        ensures
            old(self).same_config(final(self)),
            r is Ok ==> final(self).inv() && old(self).progress(final(self)),
    {
        let ghost s0 = *self;
        match self.top_state() {
            FrameState::BeginEntry => {
                self.feed.skip_trivia()?;
                let c = self.feed.class_at(0)?;
                proof {
                    s0.lemma_feed_only(self);
                }
                match c {
                    None => {
                        return self.close_collection(Event::MappingEnd);
                    },
                    Some(Class::RightBrace) => {
                        self.feed.pop()?;
                        proof {
                            s0.lemma_feed_only(self);
                        }
                        return self.close_collection(Event::MappingEnd);
                    },
                    Some(Class::Comma) => {
                        self.feed.pop()?;
                        proof {
                            s0.lemma_feed_only(self);
                        }
                    },
                    Some(_) => {
                        self.parse_flow_key()?;
                        let ghost s1 = *self;
                        set_top_state(&mut self.frames, FrameState::ExpectColon);
                        proof {
                            s1.lemma_top_state(self, FrameState::ExpectColon);
                        }
                    },
                }
                Ok(())
            },
            FrameState::ExpectColon => {
                self.feed.skip_trivia()?;
                let c = self.feed.class_at(0)?;
                match c {
                    None => {
                        return Err(self.error_here(ErrorKind::UnexpectedEof, "expected colon after mapping key"));
                    },
                    Some(Class::Colon) => {},
                    Some(_) => {
                        return Err(self.error_here(ErrorKind::UnexpectedCharacter, "expected colon after mapping key"));
                    },
                }
                let colon_span = match self.feed.span_at0()? {
                    Some(sp) => sp,
                    None => Span::new(0, 0, 1, 1),
                };
                self.feed.pop()?;
                self.feed.skip_trivia()?;
                proof {
                    s0.lemma_feed_only(self);
                }
                let ghost s1 = *self;
                set_top_state(&mut self.frames, FrameState::AfterValue);
                proof {
                    s1.lemma_top_state(self, FrameState::AfterValue);
                }
                let ghost s2 = *self;
                let c2 = self.feed.class_at(0)?;
                proof {
                    s2.lemma_feed_only(self);
                }
                match c2 {
                    None | Some(Class::Comma) | Some(Class::RightBrace) => {
                        self.emit_leaf(null_scalar_event(colon_span));
                    },
                    Some(_) => {
                        self.begin_value()?;
                    },
                }
                Ok(())
            },
            FrameState::AfterValue => {
                self.feed.skip_trivia()?;
                let c = self.feed.class_at(0)?;
                proof {
                    s0.lemma_feed_only(self);
                }
                match c {
                    None => {
                        return self.close_collection(Event::MappingEnd);
                    },
                    Some(Class::Comma) | Some(Class::RightBrace) => {
                        let ghost s1 = *self;
                        set_top_state(&mut self.frames, FrameState::BeginEntry);
                        proof {
                            s1.lemma_top_state(self, FrameState::BeginEntry);
                        }
                        Ok(())
                    },
                    Some(_) => {
                        return Err(self.error_here(ErrorKind::UnexpectedCharacter, "expected comma or } in flow mapping"));
                    },
                }
            },
        }
    }
}


/// Starts an event stream over `source` with the default options.
pub fn events<'a, R: SexagesimalFloats>(source: &'a str, floats: &'a R) -> (p: EventParser<'a, R>)
    requires
        byte_len(source@) <= isize::MAX,
    ensures
        p.inv(),
        p.is_fresh(),
{
    EventParser::new(source, &ParserOptions::default(), floats)
}

/// Starts an event stream over `source` with explicit parser options.
pub fn events_with_options<'a, R: SexagesimalFloats>(source: &'a str, options: &ParserOptions, floats: &'a R) -> (p: EventParser<'a, R>)
    requires
        byte_len(source@) <= isize::MAX,
    ensures
        p.inv(),
        p.is_fresh(),
{
    EventParser::new(source, options, floats)
}

/// Parses `source` into a complete event list, which is a well-formed stream.
pub fn collect_events<R: SexagesimalFloats>(source: &str, floats: &R) -> (r: Result<Vec<Event>, YamlError>)
    requires
        byte_len(source@) <= isize::MAX,
    ensures
        r matches Ok(v) ==> well_formed_stream(v@),
{
    let mut parser = events(source, floats);
    parser.collect_events()
}

} // verus!
