//! Error values carrying a captured window of the source around the failure.
use vstd::prelude::*;
use crate::text::{decimal_chars, decimal_text, push_chars, push_text, byte_len, byte_offsets, chars_of, count_newlines, find_line_end, find_line_start, lemma_byte_len_strict, lemma_line_end_bounds, lemma_line_start_bounds, line_end_of, line_start_of, newline_count, string_from_chars};

verus! {

/// The category of a YAML error.
#[derive(Clone, Copy, Debug, PartialEq, Eq, Hash)]
pub enum ErrorKind {
    UnexpectedEof,
    UnexpectedCharacter,
    InvalidIndentation,
    TabCharacter,
    InvalidScalar,
    InvalidAnchor,
    UnknownAnchor,
    AliasCycle,
    InvalidDirective,
    InvalidTag,
    InvalidMergeKey,
    TrailingContent,
    /// A plain scalar resolves differently under YAML 1.1 and 1.2 while no version is pinned.
    AmbiguousVersion,
    Other,
}

pub open spec fn error_kind_text(kind: ErrorKind) -> &'static str {
    match kind {
        ErrorKind::UnexpectedEof => "unexpected end of file",
        ErrorKind::UnexpectedCharacter => "unexpected character",
        ErrorKind::InvalidIndentation => "invalid indentation",
        ErrorKind::TabCharacter => "tabs are not allowed for indentation",
        ErrorKind::InvalidScalar => "invalid scalar",
        ErrorKind::InvalidAnchor => "invalid anchor",
        ErrorKind::UnknownAnchor => "unknown anchor",
        ErrorKind::AliasCycle => "alias cycle",
        ErrorKind::InvalidDirective => "invalid directive",
        ErrorKind::InvalidTag => "invalid tag",
        ErrorKind::InvalidMergeKey => "invalid merge key",
        ErrorKind::TrailingContent => "trailing content",
        ErrorKind::AmbiguousVersion => "ambiguous YAML version",
        ErrorKind::Other => "invalid YAML",
    }
}

impl ErrorKind {
    /// The human-readable description of this kind (its `Display` text).
    pub fn as_str(&self) -> (s: &'static str)
        ensures
            s == error_kind_text(*self),
    {
        match self {
            ErrorKind::UnexpectedEof => "unexpected end of file",
            ErrorKind::UnexpectedCharacter => "unexpected character",
            ErrorKind::InvalidIndentation => "invalid indentation",
            ErrorKind::TabCharacter => "tabs are not allowed for indentation",
            ErrorKind::InvalidScalar => "invalid scalar",
            ErrorKind::InvalidAnchor => "invalid anchor",
            ErrorKind::UnknownAnchor => "unknown anchor",
            ErrorKind::AliasCycle => "alias cycle",
            ErrorKind::InvalidDirective => "invalid directive",
            ErrorKind::InvalidTag => "invalid tag",
            ErrorKind::InvalidMergeKey => "invalid merge key",
            ErrorKind::TrailingContent => "trailing content",
            ErrorKind::AmbiguousVersion => "ambiguous YAML version",
            ErrorKind::Other => "invalid YAML",
        }
    }
}

/// A small captured window around an error location.
#[derive(Clone, Debug, PartialEq, Eq)]
pub struct ErrorContext {
    pub offset: usize,
    pub line: usize,
    pub column: usize,
    pub text: String,
}

/// Byte offset of the start of the line holding character position `k`.
pub open spec fn line_start_byte(s: Seq<char>, k: int) -> int {
    byte_len(s.take(line_start_of(s, k))) as int
}

/// The context of the error at character position `k` (byte offset `offset`) of `s`: the line
/// number, the 1-based byte column, and the text of the whole line holding `k`.
pub open spec fn context_of(ctx: ErrorContext, s: Seq<char>, k: int, offset: int) -> bool {
    &&& ctx.offset == offset
    &&& ctx.line == newline_count(s.take(k)) + 1
    &&& ctx.column == (if offset >= line_start_byte(s, k) { offset - line_start_byte(s, k) } else { 0 }) + 1
    &&& ctx.text@ == s.subrange(line_start_of(s, k), line_end_of(s, k))
}

/// Whether byte offset `b` falls on a character boundary of `s`.
pub open spec fn on_boundary(s: Seq<char>, b: int) -> bool {
    exists|k: int| 0 <= k <= s.len() && #[trigger] byte_len(s.take(k)) == b
}

/// The smaller of `offset` and the byte length of `s`.
pub open spec fn clamp_offset(s: Seq<char>, offset: int) -> int {
    if offset <= byte_len(s) { offset } else { byte_len(s) as int }
}

/// Whether a column computed for `offset` at character position `k` stays representable.
pub open spec fn column_fits(s: Seq<char>, k: int, offset: int) -> bool {
    offset < line_start_byte(s, k) || offset - line_start_byte(s, k) < usize::MAX
}

/// Builds the context from a character position and the byte offsets of every position.
pub fn context_at(chars: &Vec<char>, offs: &Vec<usize>, k: usize, offset: usize) -> (ctx: ErrorContext)
    requires
        k <= chars@.len() < usize::MAX,
        offs@.len() == chars@.len() + 1,
        forall|i: int| 0 <= i <= chars@.len() ==> #[trigger] offs@[i] == byte_len(chars@.take(i)),
        column_fits(chars@, k as int, offset as int),
    ensures
        context_of(ctx, chars@, k as int, offset as int),
{
    let start = find_line_start(chars, k);
    let end = find_line_end(chars, k);
    proof {
        lemma_line_start_bounds(chars@, k as int);
        lemma_line_end_bounds(chars@, k as int);
    }
    let line = count_newlines(chars, k) + 1;
    let sb = offs[start];
    let column = if offset >= sb { offset - sb + 1 } else { 1 };
    let text = string_from_chars(vstd::slice::slice_subrange(chars.as_slice(), start, end));
    ErrorContext { offset, line, column, text }
}

impl ErrorContext {
    /// Captures the line around byte `offset` of `source` (an offset past the end is clamped
    /// to the end of the source for locating the line).
    pub fn new(source: &str, offset: usize) -> (ctx: Self)
        requires
            on_boundary(source@, clamp_offset(source@, offset as int)),
            forall|k: int|
                0 <= k <= source@.len() && byte_len(source@.take(k)) == clamp_offset(source@, offset as int)
                    ==> column_fits(source@, k, offset as int),
        ensures
            forall|k: int|
                0 <= k <= source@.len() && byte_len(source@.take(k)) == clamp_offset(source@, offset as int)
                    ==> context_of(ctx, source@, k, offset as int),
    {
        let chars = chars_of(source);
        let offs = byte_offsets(source, &chars);
        let n = chars.len();
        let m = offs.len();
        assert(n < m);
        let total = offs[n];
        assert(chars@.take(n as int) =~= chars@);
        let target = if offset <= total { offset } else { total };
        let mut k: usize = 0;
        while k < n && offs[k] < target
            invariant
                k <= n == chars@.len(),
                offs@.len() == n + 1,
                target == clamp_offset(chars@, offset as int),
                on_boundary(chars@, target as int),
                forall|i: int| 0 <= i <= n ==> #[trigger] offs@[i] == byte_len(chars@.take(i)),
                forall|i: int| 0 <= i < k ==> #[trigger] byte_len(chars@.take(i)) < target,
            decreases n - k,
        {
            k = k + 1;
        }
        proof {
            let w = choose|w: int| 0 <= w <= chars@.len() && #[trigger] byte_len(chars@.take(w)) == target;
            if w < k as int {
                assert(byte_len(chars@.take(w)) < target);
            } else if w > k as int {
                lemma_byte_len_strict(chars@, k as int, w);
                if k < n {
                    assert(offs@[k as int] >= target);
                } else {
                    assert(false);
                }
            }
            assert(w == k);
            assert forall|j: int|
                0 <= j <= chars@.len() && byte_len(chars@.take(j)) == target implies j == k by {
                if j < k {
                    lemma_byte_len_strict(chars@, j, k as int);
                } else if j > k {
                    lemma_byte_len_strict(chars@, k as int, j);
                }
            }
        }
        context_at(&chars, &offs, k, offset)
    }
}

/// The text of an error: its kind, the line and column where it starts, and its message.
pub open spec fn yaml_error_text(e: YamlError) -> Seq<char> {
    error_kind_text(e.kind)@ + " at "@ + decimal_text(e.context.line as nat) + ":"@
        + decimal_text(e.context.column as nat) + ": "@ + e.message@
}

/// The primary error type returned by the lexer.
#[derive(Clone, Debug, PartialEq, Eq)]
pub struct YamlError {
    pub offset: usize,
    pub kind: ErrorKind,
    pub message: String,
    pub context: ErrorContext,
}

impl YamlError {
    /// An error at byte `offset` of `source`, with the surrounding line captured.
    pub fn new(offset: usize, kind: ErrorKind, message: &str, source: &str) -> (e: Self)
        requires
            on_boundary(source@, clamp_offset(source@, offset as int)),
            forall|k: int|
                0 <= k <= source@.len() && byte_len(source@.take(k)) == clamp_offset(source@, offset as int)
                    ==> column_fits(source@, k, offset as int),
        ensures
            e.offset == offset,
            e.kind == kind,
            e.message@ == message@,
            forall|k: int|
                0 <= k <= source@.len() && byte_len(source@.take(k)) == clamp_offset(source@, offset as int)
                    ==> context_of(e.context, source@, k, offset as int),
    {
        YamlError { offset, kind, message: message.to_owned(), context: ErrorContext::new(source, offset) }
    }

    /// The error as a sentence: `<kind> at <line>:<column>: <message>`.
    pub fn render(&self) -> (r: String)
        ensures
            r@ == yaml_error_text(*self),
    {
        let mut v: Vec<char> = Vec::new();
        push_text(&mut v, self.kind.as_str());
        push_text(&mut v, " at ");
        push_chars(&mut v, &decimal_chars(self.context.line));
        push_text(&mut v, ":");
        push_chars(&mut v, &decimal_chars(self.context.column));
        push_text(&mut v, ": ");
        push_text(&mut v, self.message.as_str());
        string_from_chars(v.as_slice())
    }

    /// An error at byte `offset` of `source` that needs no proof about the offset: when the
    /// offset (clamped to the end) is not on a character boundary, or its column would not be
    /// representable, the context is taken at the start of the source instead.
    pub fn near(offset: usize, kind: ErrorKind, message: &str, source: &str) -> (e: Self)
        requires
            byte_len(source@) <= isize::MAX,
        ensures
            e.offset == offset,
            e.kind == kind,
            e.message@ == message@,
            on_boundary(source@, clamp_offset(source@, offset as int)) && (forall|k: int|
                0 <= k <= source@.len() && byte_len(source@.take(k)) == clamp_offset(source@, offset as int)
                    ==> column_fits(source@, k, offset as int)) ==> (forall|k: int|
                0 <= k <= source@.len() && byte_len(source@.take(k)) == clamp_offset(source@, offset as int)
                    ==> context_of(e.context, source@, k, offset as int)),
    {
        let chars = chars_of(source);
        let offs = byte_offsets(source, &chars);
        let n = chars.len();
        proof {
            crate::text::lemma_len_le_byte_len(source@);
        }
        assert(chars@.take(n as int) =~= chars@);
        let total = offs[n];
        let target = if offset <= total { offset } else { total };
        let mut k: usize = 0;
        while k < n && offs[k] < target
            invariant
                k <= n == chars@.len(),
                offs@.len() == n + 1,
                target == clamp_offset(chars@, offset as int),
                forall|i: int| 0 <= i <= n ==> #[trigger] offs@[i] == byte_len(chars@.take(i)),
                forall|i: int| 0 <= i < k ==> #[trigger] byte_len(chars@.take(i)) < target,
            decreases n - k,
        {
            k = k + 1;
        }
        let start = find_line_start(&chars, k);
        proof {
            lemma_line_start_bounds(chars@, k as int);
        }
        let sb = offs[start];
        proof {
            if on_boundary(chars@, target as int) {
                let w = choose|w: int| 0 <= w <= chars@.len() && #[trigger] byte_len(chars@.take(w)) == target;
                if w < k as int {
                    assert(byte_len(chars@.take(w)) < target);
                } else if w > k as int {
                    lemma_byte_len_strict(chars@, k as int, w);
                    if k < n {
                        assert(offs@[k as int] >= target);
                    } else {
                        assert(false);
                    }
                }
                assert(w == k);
            }
            assert forall|j: int|
                0 <= j <= chars@.len() && byte_len(chars@.take(j)) == target && offs@[k as int] == target implies j == k by {
                if j < k {
                    lemma_byte_len_strict(chars@, j, k as int);
                } else if j > k {
                    lemma_byte_len_strict(chars@, k as int, j);
                }
            }
        }
        let ctx = if offs[k] == target && (offset < sb || offset - sb < usize::MAX) {
            context_at(&chars, &offs, k, offset)
        } else {
            assert(chars@.take(0) =~= Seq::<char>::empty());
            proof {
                if on_boundary(source@, clamp_offset(source@, offset as int)) && (forall|j: int|
                    0 <= j <= source@.len() && byte_len(source@.take(j)) == clamp_offset(source@, offset as int)
                        ==> column_fits(source@, j, offset as int)) {
                    assert(offs@[k as int] == target);
                    assert(byte_len(chars@.take(k as int)) == target);
                    assert(column_fits(source@, k as int, offset as int));
                    assert(line_start_byte(chars@, k as int) == sb);
                    assert(false);
                }
            }
            context_at(&chars, &offs, 0, 0)
        };
        YamlError { offset, kind, message: message.to_owned(), context: ctx }
    }

    /// Same as [`YamlError::new`].
    pub fn at(offset: usize, kind: ErrorKind, message: &str, source: &str) -> (e: Self)
        requires
            on_boundary(source@, clamp_offset(source@, offset as int)),
            forall|k: int|
                0 <= k <= source@.len() && byte_len(source@.take(k)) == clamp_offset(source@, offset as int)
                    ==> column_fits(source@, k, offset as int),
        ensures
            e.offset == offset,
            e.kind == kind,
            e.message@ == message@,
            forall|k: int|
                0 <= k <= source@.len() && byte_len(source@.take(k)) == clamp_offset(source@, offset as int)
                    ==> context_of(e.context, source@, k, offset as int),
    {
        Self::new(offset, kind, message, source)
    }
}

} // verus!
