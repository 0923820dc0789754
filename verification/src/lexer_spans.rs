//! Spans as byte ranges of the source: every token the tokenization rules produce covers a
//! range that starts and ends on character boundaries.
use vstd::prelude::*;
use crate::diagnostics::on_boundary;
use crate::lexer_spec::{
    block_lines, block_scalar, content_end, lemma_name_end_bounds, lemma_plain_bounds, lemma_quoted_bounds, lex_from,
    lex_spec, marker_at, name_end, next_line, plain_from, quoted_from, scan_from, scan_line, skip_spaces, span_of, tok,
    SpecToken,
};
use crate::document::NodeData;
use crate::span::Span;
use crate::diagnostics::line_start_byte;
use crate::text::{
    line_start_of,
    byte_len, lemma_byte_len_mono, lemma_len_le_byte_len, lemma_line_end_bounds, lemma_line_start_bounds, line_end_of,
    newline_count,
};

verus! {

/// The span is a byte range of `s` from one character boundary to a later one.
pub open spec fn span_in(s: Seq<char>, sp: Span) -> bool {
    &&& sp.start <= sp.end
    &&& on_boundary(s, sp.start as int)
    &&& on_boundary(s, sp.end as int)
}

/// The span's line and column are the 1-based line and byte column of its start offset.
pub open spec fn span_at(s: Seq<char>, sp: Span) -> bool {
    exists|k: int|
        0 <= k <= s.len() && #[trigger] byte_len(s.take(k)) == sp.start && sp.line == newline_count(s.take(k)) + 1
            && sp.column == byte_len(s.take(k)) - line_start_byte(s, k) + 1
}

/// Every token's line and column are those of its start offset.
pub open spec fn tokens_at(s: Seq<char>, toks: Seq<SpecToken>) -> bool {
    forall|i: int| 0 <= i < toks.len() ==> span_at(s, (#[trigger] toks[i]).span)
}

/// Every node span's line and column are those of its start offset.
pub open spec fn positions_ok(source: Seq<char>, nodes: Seq<NodeData>) -> bool {
    forall|k: int| 0 <= k < nodes.len() ==> ((#[trigger] nodes[k]).span matches Some(sp) ==> span_at(source, sp))
}

proof fn lemma_newline_count_le(t: Seq<char>)
    ensures
        newline_count(t) <= t.len(),
    decreases t.len(),
{
    if t.len() > 0 {
        lemma_newline_count_le(t.drop_last());
    }
}

/// The span from character position `a` carries the line and column of `a`.
pub proof fn lemma_span_of_at(s: Seq<char>, a: int, b: int)
    requires
        0 <= a <= s.len(),
        byte_len(s) <= usize::MAX - 1,
    ensures
        span_at(s, span_of(s, a, b)),
{
    reveal(span_of);
    lemma_byte_len_mono(s, a, s.len() as int);
    assert(s.take(s.len() as int) =~= s);
    lemma_newline_count_le(s.take(a));
    lemma_len_le_byte_len(s.take(a));
    lemma_line_start_bounds(s, a);
    lemma_byte_len_mono(s, line_start_of(s, a), a);
    let sp = span_of(s, a, b);
    assert(byte_len(s.take(a)) == sp.start);
}

/// Offset zero carries line 1, column 1.
pub proof fn lemma_origin_at(s: Seq<char>)
    ensures
        span_at(s, Span { start: 0, end: 0, line: 1, column: 1 }),
{
    assert(s.take(0) =~= Seq::<char>::empty());
    assert(byte_len(s.take(0)) == 0);
    assert(line_start_of(s, 0) == 0);
    assert(newline_count(s.take(0)) == 0);
}

/// Every node span lies on character boundaries of `source`, start before end.
pub open spec fn spans_ok(source: Seq<char>, nodes: Seq<NodeData>) -> bool {
    forall|k: int|
        0 <= k < nodes.len() ==> match (#[trigger] nodes[k]).span {
            Some(sp) => sp.start <= sp.end && on_boundary(source, sp.start as int) && on_boundary(source, sp.end as int),
            None => true,
        }
}

/// Offset zero is a character boundary of every text.
pub proof fn lemma_zero_on_boundary(s: Seq<char>)
    ensures
        on_boundary(s, 0),
{
    assert(s.take(0) =~= Seq::<char>::empty());
    crate::text::lemma_byte_len_mono(s, 0, 0);
    assert(byte_len(s.take(0)) == 0);
}

/// Every token's span is a byte range of `s`.
pub open spec fn tokens_in(s: Seq<char>, toks: Seq<SpecToken>) -> bool {
    forall|i: int| 0 <= i < toks.len() ==> span_in(s, (#[trigger] toks[i]).span)
}

/// No token is the end of the stream.
pub open spec fn no_eof(toks: Seq<SpecToken>) -> bool {
    forall|i: int| 0 <= i < toks.len() ==> !((#[trigger] toks[i]).kind is Eof)
}

/// The stream ends with its one `Eof` token.
pub open spec fn ends_once(toks: Seq<SpecToken>) -> bool {
    &&& toks.len() > 0
    &&& toks.last().kind is Eof
    &&& no_eof(toks.drop_last())
}

/// Tokens come in the order of their start offsets.
pub open spec fn starts_sorted(toks: Seq<SpecToken>) -> bool {
    forall|i: int, j: int| 0 <= i < j < toks.len() ==> (#[trigger] toks[i]).span.start <= (#[trigger] toks[j]).span.start
}

/// Every token starts at an offset in `[lo, hi]`.
pub open spec fn starts_within(toks: Seq<SpecToken>, lo: int, hi: int) -> bool {
    forall|i: int| 0 <= i < toks.len() ==> lo <= (#[trigger] toks[i]).span.start <= hi
}

proof fn lemma_span_start(s: Seq<char>, a: int, b: int)
    ensures
        span_of(s, a, b).start == byte_len(s.take(a)) as usize,
{
    reveal(span_of);
}

/// Appending a token that starts no earlier than every token so far keeps the order.
proof fn lemma_sorted_push(toks: Seq<SpecToken>, t: SpecToken, lo: int, hi: int)
    requires
        starts_sorted(toks),
        starts_within(toks, lo, hi),
        lo <= hi <= t.span.start,
    ensures
        starts_sorted(toks.push(t)),
        starts_within(toks.push(t), lo, t.span.start as int),
{
    let p = toks.push(t);
    assert forall|i: int, j: int| 0 <= i < j < p.len() implies (#[trigger] p[i]).span.start <= (#[trigger] p[j]).span.start by {
        assert(p[i] == toks[i]);
        if j < toks.len() {
            assert(p[j] == toks[j]);
        }
    }
    assert forall|i: int| 0 <= i < p.len() implies lo <= (#[trigger] p[i]).span.start <= t.span.start by {
        if i < toks.len() {
            assert(p[i] == toks[i]);
        }
    }
}

/// The span between two character positions, in order, is a byte range of the source.
pub proof fn lemma_span_of_in(s: Seq<char>, a: int, b: int)
    requires
        0 <= a <= b <= s.len(),
        byte_len(s) <= usize::MAX,
    ensures
        span_in(s, span_of(s, a, b)),
{
    reveal(span_of);
    lemma_byte_len_mono(s, a, b);
    lemma_byte_len_mono(s, b, s.len() as int);
    assert(s.take(s.len() as int) =~= s);
    let sp = span_of(s, a, b);
    assert(sp.start as int == byte_len(s.take(a)));
    assert(sp.end as int == byte_len(s.take(b)));
}

proof fn lemma_tokens_push(s: Seq<char>, toks: Seq<SpecToken>, t: SpecToken)
    requires
        tokens_in(s, toks),
        span_in(s, t.span),
    ensures
        tokens_in(s, toks.push(t)),
{
    assert forall|i: int| 0 <= i < toks.push(t).len() implies span_in(s, (#[trigger] toks.push(t)[i]).span) by {
        if i < toks.len() {
            assert(toks.push(t)[i] == toks[i]);
        }
    }
}

proof fn lemma_content_end_bounds(s: Seq<char>, k: int)
    requires
        0 <= k <= s.len(),
    ensures
        k <= content_end(s, k) <= line_end_of(s, k) <= s.len(),
        next_line(s, k) <= s.len(),
        line_end_of(s, k) < next_line(s, k) || next_line(s, k) == s.len(),
        k < s.len() ==> k < next_line(s, k),
{
    lemma_line_end_bounds(s, k);
}

proof fn lemma_block_lines_bounds(s: Seq<char>, cur: int, indent: int, base: Option<int>, lines: Seq<(int, int)>)
    requires
        0 <= cur <= s.len(),
    ensures
        cur <= block_lines(s, cur, indent, base, lines).2 <= s.len(),
    decreases s.len() - cur,
{
    if cur < s.len() {
        let ce = content_end(s, cur);
        lemma_content_end_bounds(s, cur);
        let leading = skip_spaces(s, cur, ce) - cur;
        let blank = cur + leading == ce;
        if !blank && base is Some && leading < base->0 {
        } else if !blank && base is None && leading <= indent {
        } else if next_line(s, cur) <= cur {
        } else {
            let nb = if !blank && base is None { Some(leading) } else { base };
            lemma_block_lines_bounds(s, next_line(s, cur), indent, nb, lines.push((cur, ce)));
        }
    }
}

/// Appending the token of `[a, b)`, found at or after column `col`, keeps the tokens inside the
/// source and in order.
proof fn lemma_push_tok(s: Seq<char>, ls: int, col: int, acc: Seq<SpecToken>, t: SpecToken, a: int, b: int)
    requires
        byte_len(s) <= isize::MAX,
        0 <= ls <= col <= a <= b <= s.len(),
        t.span == span_of(s, a, b),
        tokens_in(s, acc),
        tokens_at(s, acc),
        starts_sorted(acc),
        starts_within(acc, byte_len(s.take(ls)) as int, byte_len(s.take(col)) as int),
    ensures
        tokens_in(s, acc.push(t)),
        tokens_at(s, acc.push(t)),
        starts_sorted(acc.push(t)),
        starts_within(acc.push(t), byte_len(s.take(ls)) as int, byte_len(s.take(a)) as int),
        no_eof(acc) && !(t.kind is Eof) ==> no_eof(acc.push(t)),
{
    if no_eof(acc) && !(t.kind is Eof) {
        assert forall|i: int| 0 <= i < acc.push(t).len() implies !((#[trigger] acc.push(t)[i]).kind is Eof) by {
            if i < acc.len() {
                assert(acc.push(t)[i] == acc[i]);
            }
        }
    }
    lemma_span_of_in(s, a, b);
    lemma_tokens_push(s, acc, t);
    lemma_span_of_at(s, a, b);
    assert forall|i: int| 0 <= i < acc.push(t).len() implies span_at(s, (#[trigger] acc.push(t)[i]).span) by {
        if i < acc.len() {
            assert(acc.push(t)[i] == acc[i]);
        }
    }
    lemma_span_start(s, a, b);
    lemma_byte_len_mono(s, ls, col);
    lemma_byte_len_mono(s, col, a);
    lemma_byte_len_mono(s, a, s.len() as int);
    assert(s.take(s.len() as int) =~= s);
    lemma_sorted_push(acc, t, byte_len(s.take(ls)) as int, byte_len(s.take(col)) as int);
}

/// Scanning a line from any column adds only tokens that cover byte ranges of the source, in
/// order, each starting within the line's content.
proof fn lemma_scan_from_in(s: Seq<char>, ls: int, ce: int, indent: int, col: int, acc: Seq<SpecToken>)
    requires
        0 <= ls <= col <= ce <= s.len(),
        ce <= line_end_of(s, ls),
        byte_len(s) <= isize::MAX,
        tokens_in(s, acc),
        tokens_at(s, acc),
        starts_sorted(acc),
        starts_within(acc, byte_len(s.take(ls)) as int, byte_len(s.take(col)) as int),
    ensures
        scan_from(s, ls, ce, indent, col, acc) matches Ok((toks, jump)) ==> tokens_in(s, toks) && tokens_at(s, toks) && starts_sorted(toks)
            && starts_within(toks, byte_len(s.take(ls)) as int, byte_len(s.take(ce)) as int)
            && (jump matches Some(n) ==> ce <= n && next_line(s, ls) <= n <= s.len())
            && (no_eof(acc) ==> no_eof(toks)),
    decreases ce - col,
{
    let lo = byte_len(s.take(ls)) as int;
    lemma_byte_len_mono(s, col, ce);
    if col < ce {
        let ch = s[col];
        if ch == ' ' {
            lemma_byte_len_mono(s, col, col + 1);
            lemma_scan_from_in(s, ls, ce, indent, col + 1, acc);
        } else if ch == '\t' {
        } else if ch == '#' {
            let t = tok(crate::lexer_spec::SpecTokenKind::Comment(s.subrange(crate::lexer_spec::skip_ws(s, col + 1, ce), ce)), s, col, ce, indent);
            lemma_push_tok(s, ls, col, acc, t, col, ce);
        } else if marker_at(s, ls, ce, col, '-') {
            let t = tok(crate::lexer_spec::SpecTokenKind::DocumentStart, s, ls, ls + 3, indent);
            lemma_push_tok(s, ls, col, acc, t, ls, ls + 3);
            lemma_byte_len_mono(s, ls, ls + 3);
            lemma_scan_from_in(s, ls, ce, indent, ls + 3, acc.push(t));
        } else if marker_at(s, ls, ce, col, '.') {
            let t = tok(crate::lexer_spec::SpecTokenKind::DocumentEnd, s, ls, ls + 3, indent);
            lemma_push_tok(s, ls, col, acc, t, ls, ls + 3);
            lemma_byte_len_mono(s, ls, ls + 3);
            lemma_scan_from_in(s, ls, ce, indent, ls + 3, acc.push(t));
        } else if ch == '-' && crate::lexer_spec::ws_or_end(s, col + 1, ce) {
            let t = tok(crate::lexer_spec::SpecTokenKind::SequenceEntry, s, col, col + 1, indent);
            lemma_push_tok(s, ls, col, acc, t, col, col + 1);
            lemma_byte_len_mono(s, col, col + 1);
            lemma_scan_from_in(s, ls, ce, indent, col + 1, acc.push(t));
        } else if ch == '?' && crate::lexer_spec::ws_or_end(s, col + 1, ce) {
            let t = tok(crate::lexer_spec::SpecTokenKind::MappingKey, s, col, col + 1, indent);
            lemma_push_tok(s, ls, col, acc, t, col, col + 1);
            lemma_byte_len_mono(s, col, col + 1);
            lemma_scan_from_in(s, ls, ce, indent, col + 1, acc.push(t));
        } else if ch == '&' || ch == '*' || ch == '!' {
            let e = name_end(s, col + 1, ce);
            lemma_name_end_bounds(s, col + 1, ce);
            if e > col + 1 {
                let name = s.subrange(col + 1, e);
                let kind = if ch == '&' {
                    crate::lexer_spec::SpecTokenKind::Anchor(name)
                } else if ch == '*' {
                    crate::lexer_spec::SpecTokenKind::Alias(name)
                } else {
                    crate::lexer_spec::SpecTokenKind::Tag(name)
                };
                let t = tok(kind, s, col, e, indent);
                lemma_push_tok(s, ls, col, acc, t, col, e);
                lemma_byte_len_mono(s, col, e);
                lemma_scan_from_in(s, ls, ce, indent, e, acc.push(t));
            }
        } else if ch == '%' && col == ls {
            let t = tok(crate::lexer_spec::SpecTokenKind::Directive(s.subrange(ls + 1, crate::lexer_spec::trim_ws_end(s, ls + 1, ce))), s, ls, ce, indent);
            lemma_push_tok(s, ls, col, acc, t, ls, ce);
        } else if crate::lexer_spec::is_flow(ch) {
            let t = tok(crate::lexer_spec::punctuation_kind(ch), s, col, col + 1, indent);
            lemma_push_tok(s, ls, col, acc, t, col, col + 1);
            lemma_byte_len_mono(s, col, col + 1);
            lemma_scan_from_in(s, ls, ce, indent, col + 1, acc.push(t));
        } else if ch == ':' && crate::lexer_spec::ws_or_end(s, col + 1, ce) {
            let t = tok(crate::lexer_spec::SpecTokenKind::Colon, s, col, col + 1, indent);
            lemma_push_tok(s, ls, col, acc, t, col, col + 1);
            lemma_byte_len_mono(s, col, col + 1);
            lemma_scan_from_in(s, ls, ce, indent, col + 1, acc.push(t));
        } else if ch == '|' || ch == '>' {
            reveal(block_scalar);
            if let Ok((kind, next)) = block_scalar(s, ch, ls, col, ce, indent) {
                lemma_content_end_bounds(s, ls);
                let base = match crate::lexer_spec::block_header(s, col + 1, ce, crate::lexer_spec::Chomping::Clip, None) {
                    Ok((_, explicit)) => match explicit { Some(n) => Some(indent + n), None => None },
                    Err(_) => None,
                };
                lemma_block_lines_bounds(s, next_line(s, ls), indent, base, Seq::empty());
                lemma_push_tok(s, ls, col, acc, tok(kind, s, col, next, indent), col, next);
            }
        } else if ch == '\'' || ch == '"' {
            if let Ok((raw, end)) = quoted_from(s, col + 1, ce, ch, Seq::empty()) {
                lemma_quoted_bounds(s, col + 1, ce, ch, Seq::empty());
                let style = if ch == '\'' { crate::lexer_spec::ScalarStyle::SingleQuoted } else { crate::lexer_spec::ScalarStyle::DoubleQuoted };
                let t = tok(crate::lexer_spec::SpecTokenKind::Scalar { raw, style, tag: None }, s, col, end, indent);
                lemma_push_tok(s, ls, col, acc, t, col, end);
                lemma_byte_len_mono(s, col, end);
                lemma_scan_from_in(s, ls, ce, indent, end, acc.push(t));
            }
        } else {
            let (raw_end, end) = plain_from(s, ls, ce, col, col);
            lemma_plain_bounds(s, ls, ce, col, col);
            let t = tok(crate::lexer_spec::SpecTokenKind::Scalar { raw: s.subrange(col, raw_end), style: crate::lexer_spec::ScalarStyle::Plain, tag: None }, s, col, end, indent);
            lemma_push_tok(s, ls, col, acc, t, col, end);
            if end > col {
                lemma_byte_len_mono(s, col, end);
                lemma_scan_from_in(s, ls, ce, indent, end, acc.push(t));
            }
        }
    }
}

/// The tokens of every line from `ls` on cover byte ranges of the source, in order, none
/// starting before `ls`.
pub proof fn lemma_lex_from_in(s: Seq<char>, ls: int)
    requires
        byte_len(s) <= isize::MAX,
        0 <= ls <= s.len(),
    ensures
        tokens_in(s, lex_from(s, ls).0),
        tokens_at(s, lex_from(s, ls).0),
        starts_sorted(lex_from(s, ls).0),
        starts_within(lex_from(s, ls).0, byte_len(s.take(ls)) as int, byte_len(s) as int),
        lex_from(s, ls).1 is None ==> ends_once(lex_from(s, ls).0),
    decreases s.len() - ls,
{
    let lo = byte_len(s.take(ls)) as int;
    assert(s.take(s.len() as int) =~= s);
    lemma_byte_len_mono(s, ls, s.len() as int);
    if ls >= s.len() {
        let t = tok(crate::lexer_spec::SpecTokenKind::Eof, s, s.len() as int, s.len() as int, 0);
        lemma_push_tok(s, ls, ls, Seq::empty(), t, s.len() as int, s.len() as int);
        assert(seq![t] =~= Seq::<SpecToken>::empty().push(t));
        assert(seq![t].drop_last() =~= Seq::<SpecToken>::empty());
    } else {
        lemma_content_end_bounds(s, ls);
        let ce = content_end(s, ls);
        let j = skip_spaces(s, ls, ce);
        let indent = j - ls;
        lemma_byte_len_mono(s, ce, s.len() as int);
        if let Ok((toks, next)) = scan_line(s, ls) {
            if j == ce {
                let t = tok(crate::lexer_spec::SpecTokenKind::BlankLine, s, ls, ce, indent);
                lemma_push_tok(s, ls, ls, Seq::empty(), t, ls, ce);
                assert(seq![t] =~= Seq::<SpecToken>::empty().push(t));
                lemma_byte_len_mono(s, ls, ce);
                assert(no_eof(toks));
            } else {
                lemma_skip_spaces_bound(s, ls, ce);
                lemma_byte_len_mono(s, ls, j);
                lemma_scan_from_in(s, ls, ce, indent, j, Seq::empty());
            }
            assert(starts_within(toks, lo, byte_len(s.take(ce)) as int));
            assert(no_eof(toks));
            assert(ls < next <= s.len());
            if ls < next <= s.len() {
                lemma_lex_from_in(s, next);
                let r = lex_from(s, next);
                assert(ce <= next);
                lemma_byte_len_mono(s, ce, next);
                lemma_byte_len_mono(s, ls, next);
                let all = toks + r.0;
                assert forall|i: int| 0 <= i < all.len() implies span_in(s, (#[trigger] all[i]).span) && span_at(s, all[i].span) by {
                    if i < toks.len() {
                        assert(all[i] == toks[i]);
                    } else {
                        assert(all[i] == r.0[i - toks.len()]);
                    }
                }
                assert forall|i: int, k: int| 0 <= i < k < all.len() implies (#[trigger] all[i]).span.start <= (#[trigger] all[k]).span.start by {
                    if k < toks.len() {
                        assert(all[i] == toks[i] && all[k] == toks[k]);
                    } else if i >= toks.len() {
                        assert(all[i] == r.0[i - toks.len()] && all[k] == r.0[k - toks.len()]);
                    } else {
                        assert(all[i] == toks[i] && all[k] == r.0[k - toks.len()]);
                    }
                }
                assert forall|i: int| 0 <= i < all.len() implies lo <= (#[trigger] all[i]).span.start <= byte_len(s) by {
                    if i < toks.len() {
                        assert(all[i] == toks[i]);
                    } else {
                        assert(all[i] == r.0[i - toks.len()]);
                    }
                }
                if r.1 is None {
                    assert(all.drop_last() =~= toks + r.0.drop_last());
                    assert(all.last() == r.0.last());
                    assert forall|i: int| 0 <= i < all.drop_last().len() implies !((#[trigger] all.drop_last()[i]).kind is Eof) by {
                        if i < toks.len() {
                            assert(all.drop_last()[i] == toks[i]);
                        } else {
                            assert(all.drop_last()[i] == r.0.drop_last()[i - toks.len()]);
                        }
                    }
                }
            }
        }
    }
}

proof fn lemma_skip_spaces_bound(s: Seq<char>, i: int, e: int)
    requires
        i <= e,
    ensures
        i <= skip_spaces(s, i, e) <= e,
    decreases e - i,
{
    if i < e && s[i] == ' ' {
        lemma_skip_spaces_bound(s, i + 1, e);
    }
}

/// A clean tokenization ends with `Eof`, and `Eof` comes nowhere else; the tokens come in the
/// order of their start offsets.
pub proof fn lemma_token_stream(s: Seq<char>)
    requires
        byte_len(s) <= isize::MAX,
        lex_spec(s).1 is None,
    ensures
        ends_once(lex_spec(s).0),
        starts_sorted(lex_spec(s).0),
{
    lemma_lex_from_in(s, 0);
}

/// Every token of a source covers a byte range of it and carries the line and column of its
/// start, and the tokens come in the order of their start offsets.
pub proof fn lemma_lex_spans(s: Seq<char>)
    requires
        byte_len(s) <= isize::MAX,
    ensures
        tokens_in(s, lex_spec(s).0),
        tokens_at(s, lex_spec(s).0),
        starts_sorted(lex_spec(s).0),
{
    lemma_lex_from_in(s, 0);
}

} // verus!
