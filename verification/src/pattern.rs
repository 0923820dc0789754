//! A small regex-subset matcher for JSON Schema `pattern`: `^`/`$` anchors, `.`, `*`, `+`, `?`,
//! character classes `[...]` with ranges and `^` negation, and the escapes `\d \w \s \D \W \S`
//! inside and outside classes. Any other character is matched literally. `pattern_spec` gives
//! the syntax and the language that a compiled pattern matches.
use vstd::prelude::*;
use crate::pattern_spec::{
    atom_accepts, class_at, class_hit, class_items, compile_model, count_ok, escape_class,
    item_hit, lemma_class_at_after, lemma_seq_matches_elim, lemma_seq_matches_intro, member_char,
    member_end, parse_pieces, pattern_matches, quantified, run_ok, seq_matches, AtomModel,
    ClassItem, PatternModel, PieceModel,
};
use crate::text::{chars_of, is_alphanumeric, is_ascii_digit, is_whitespace};

verus! {

/// A single-character matcher.
#[derive(Clone, Debug, PartialEq)]
pub enum Atom {
    Any,
    Literal(char),
    /// A class and whether it is negated.
    Class(Vec<ClassItem>, bool),
}

impl View for Atom {
    type V = AtomModel;

    open spec fn view(&self) -> AtomModel {
        match self {
            Atom::Any => AtomModel::Any,
            Atom::Literal(c) => AtomModel::Literal(*c),
            Atom::Class(items, negated) => AtomModel::Class(items@, *negated),
        }
    }
}

/// An atom with its repeat bounds: exactly once unless a quantifier followed it.
#[derive(Clone, Debug, PartialEq)]
pub struct Piece {
    pub atom: Atom,
    pub min: usize,
    pub max: Option<usize>,
}

impl View for Piece {
    type V = PieceModel;

    open spec fn view(&self) -> PieceModel {
        PieceModel {
            atom: self.atom@,
            min: self.min as nat,
            max: match self.max {
                Some(m) => Some(m as nat),
                None => None,
            },
        }
    }
}

pub open spec fn pieces_model(s: Seq<Piece>) -> Seq<PieceModel> {
    s.map_values(|p: Piece| p@)
}

/// A parsed pattern, compiled once when a schema is loaded.
#[derive(Clone, Debug, PartialEq)]
pub struct Pattern {
    ast: Vec<Piece>,
    anchored_start: bool,
    anchored_end: bool,
}

impl View for Pattern {
    type V = PatternModel;

    closed spec fn view(&self) -> PatternModel {
        PatternModel {
            pieces: pieces_model(self.ast@),
            anchored_start: self.anchored_start,
            anchored_end: self.anchored_end,
        }
    }
}

/// Reads a pattern source; `Err` when it uses syntax outside the supported subset.
pub fn compile(source: &str) -> (r: Result<Pattern, ()>)
    ensures
        match r {
            Ok(p) => compile_model(source@) == Ok::<PatternModel, ()>(p@),
            Err(_) => compile_model(source@) is Err,
        },
{
    let chars = chars_of(source);
    let anchored_start = chars.len() > 0 && chars[0] == '^';
    let start: usize = if anchored_start {
        1
    } else {
        0
    };
    match parse_seq(&chars, start) {
        Ok((ast, anchored_end)) => {
            let p = Pattern { ast, anchored_start, anchored_end };
            assert(p@.pieces == pieces_model(ast@));
            Ok(p)
        },
        Err(()) => Err(()),
    }
}

fn escape_item(e: char) -> (r: Option<ClassItem>)
    ensures
        r == escape_class(e),
{
    if e == 'd' {
        Some(ClassItem::Digit(false))
    } else if e == 'D' {
        Some(ClassItem::Digit(true))
    } else if e == 'w' {
        Some(ClassItem::Word(false))
    } else if e == 'W' {
        Some(ClassItem::Word(true))
    } else if e == 's' {
        Some(ClassItem::Space(false))
    } else if e == 'S' {
        Some(ClassItem::Space(true))
    } else {
        None
    }
}

/// The pieces from `start` onwards and whether the pattern ends with the `$` anchor.
fn parse_seq(chars: &Vec<char>, start: usize) -> (r: Result<(Vec<Piece>, bool), ()>)
    requires
        start <= chars@.len(),
    ensures
        match r {
            Ok((v, end)) => parse_pieces(chars@, start as int, Seq::empty()) == Ok::<
                (Seq<PieceModel>, bool),
                (),
            >((pieces_model(v@), end)),
            Err(_) => parse_pieces(chars@, start as int, Seq::empty()) is Err,
        },
{
    let mut pieces: Vec<Piece> = Vec::new();
    let mut pos = start;
    assert(pieces_model(pieces@) =~= Seq::<PieceModel>::empty());
    while pos < chars.len()
        invariant
            start <= pos <= chars@.len(),
            parse_pieces(chars@, start as int, Seq::empty()) == parse_pieces(
                chars@,
                pos as int,
                pieces_model(pieces@),
            ),
        decreases chars@.len() - pos,
    {
        let c = chars[pos];
        let ghost before = pieces_model(pieces@);
        if c == '$' {
            if pos + 1 == chars.len() {
                return Ok((pieces, true));
            }
            let piece = Piece { atom: Atom::Literal('$'), min: 1, max: Some(1) };
            pieces.push(piece);
            assert(pieces_model(pieces@) =~= before.push(piece@));
            pos = pos + 1;
        } else if c == '*' || c == '+' || c == '?' || c == '^' {
            return Err(());
        } else if c == '[' {
            match parse_class(chars, pos + 1) {
                Ok((items, negated, after)) => {
                    proof {
                        lemma_class_at_after(chars@, pos + 1);
                    }
                    let (piece, next) = quantify(chars, after, Atom::Class(items, negated));
                    pieces.push(piece);
                    assert(pieces_model(pieces@) =~= before.push(piece@));
                    pos = next;
                },
                Err(()) => {
                    return Err(());
                },
            }
        } else if c == '\\' {
            if pos + 1 >= chars.len() {
                return Err(());
            }
            let e = chars[pos + 1];
            let atom = match escape_item(e) {
                Some(item) => {
                    let mut v: Vec<ClassItem> = Vec::new();
                    v.push(item);
                    assert(v@ =~= seq![item]);
                    Atom::Class(v, false)
                },
                None => Atom::Literal(e),
            };
            let (piece, next) = quantify(chars, pos + 2, atom);
            pieces.push(piece);
            assert(pieces_model(pieces@) =~= before.push(piece@));
            pos = next;
        } else {
            let atom = if c == '.' {
                Atom::Any
            } else {
                Atom::Literal(c)
            };
            let (piece, next) = quantify(chars, pos + 1, atom);
            pieces.push(piece);
            assert(pieces_model(pieces@) =~= before.push(piece@));
            pos = next;
        }
    }
    Ok((pieces, false))
}

/// Reads the quantifier, if any, at `next` after an atom.
fn quantify(chars: &Vec<char>, next: usize, atom: Atom) -> (r: (Piece, usize))
    requires
        next <= chars@.len(),
    ensures
        r.0@ == quantified(chars@, next as int, atom@).0,
        r.1 == quantified(chars@, next as int, atom@).1,
{
    if next < chars.len() && chars[next] == '*' {
        (Piece { atom, min: 0, max: None }, next + 1)
    } else if next < chars.len() && chars[next] == '+' {
        (Piece { atom, min: 1, max: None }, next + 1)
    } else if next < chars.len() && chars[next] == '?' {
        (Piece { atom, min: 0, max: Some(1) }, next + 1)
    } else {
        (Piece { atom, min: 1, max: Some(1) }, next)
    }
}

/// Reads a class whose `[` stands just before `pos`.
fn parse_class(chars: &Vec<char>, pos: usize) -> (r: Result<(Vec<ClassItem>, bool, usize), ()>)
    requires
        pos <= chars@.len(),
    ensures
        match r {
            Ok((items, negated, after)) => class_at(chars@, pos as int) == Ok::<
                (Seq<ClassItem>, bool, int),
                (),
            >((items@, negated, after as int)),
            Err(_) => class_at(chars@, pos as int) is Err,
        },
{
    let negated = pos < chars.len() && chars[pos] == '^';
    let start: usize = if negated {
        pos + 1
    } else {
        pos
    };
    let mut p = start;
    let mut items: Vec<ClassItem> = Vec::new();
    let mut first = true;
    assert(items@ =~= Seq::<ClassItem>::empty());
    loop
        invariant
            start <= p <= chars@.len(),
            negated == (0 <= pos < chars@.len() && chars@[pos as int] == '^'),
            start == (if negated {
                pos + 1
            } else {
                pos as int
            }),
            class_items(chars@, start as int, true, Seq::empty()) == class_items(
                chars@,
                p as int,
                first,
                items@,
            ),
        decreases chars@.len() - p,
    {
        if p >= chars.len() {
            return Err(());
        }
        let c = chars[p];
        if c == ']' && !first {
            return Ok((items, negated, p + 1));
        }
        if c == '\\' && p + 1 >= chars.len() {
            return Err(());
        }
        let ghost before = items@;
        let escaped_item = if c == '\\' {
            escape_item(chars[p + 1])
        } else {
            None
        };
        match escaped_item {
            Some(item) => {
                items.push(item);
                p = p + 2;
            },
            None => {
                let lo = if c == '\\' {
                    chars[p + 1]
                } else {
                    c
                };
                let p2 = if c == '\\' {
                    p + 2
                } else {
                    p + 1
                };
                assert(lo == member_char(chars@, p as int));
                assert(p2 == member_end(chars@, p as int));
                if p2 < chars.len() && chars.len() - p2 > 1 && chars[p2] == '-' && chars[p2 + 1]
                    != ']' {
                    items.push(ClassItem::Range(lo, chars[p2 + 1]));
                    p = p2 + 2;
                } else {
                    items.push(ClassItem::Char(lo));
                    p = p2;
                }
            },
        }
        first = false;
    }
}

fn item_hit_exec(item: &ClassItem, c: char) -> (r: bool)
    ensures
        r == item_hit(*item, c),
{
    match item {
        ClassItem::Char(x) => *x == c,
        ClassItem::Range(lo, hi) => *lo <= c && c <= *hi,
        ClassItem::Digit(neg) => is_ascii_digit(c) != *neg,
        ClassItem::Word(neg) => (is_alphanumeric(c) || c == '_') != *neg,
        ClassItem::Space(neg) => is_whitespace(c) != *neg,
    }
}

/// Whether `c` is in the class, negation applied.
fn class_matches(items: &Vec<ClassItem>, negated: bool, c: char) -> (r: bool)
    ensures
        r == (class_hit(items@, c) != negated),
{
    let mut t: usize = 0;
    while t < items.len()
        invariant
            t <= items@.len(),
            forall|u: int| 0 <= u < t ==> !item_hit(#[trigger] items@[u], c),
        decreases items@.len() - t,
    {
        if item_hit_exec(&items[t], c) {
            return !negated;
        }
        t = t + 1;
    }
    negated
}

fn atom_accepts_exec(a: &Atom, c: char) -> (r: bool)
    ensures
        r == atom_accepts(a@, c),
{
    match a {
        Atom::Any => true,
        Atom::Literal(x) => *x == c,
        Atom::Class(items, negated) => class_matches(items, *negated, c),
    }
}

fn below_max(max: Option<usize>, k: usize) -> (r: bool)
    ensures
        r == match max {
            Some(m) => k < m,
            None => true,
        },
{
    match max {
        Some(m) => k < m,
        None => true,
    }
}

/// Matches the pieces from index `pi` at `pos`; with `anchored_end` only a match that reaches
/// the end of `text` counts. Returns where the match ends.
fn match_seq(pieces: &Vec<Piece>, pi: usize, text: &Vec<char>, pos: usize, anchored_end: bool) -> (r:
    Option<usize>)
    requires
        pi <= pieces@.len(),
        pos <= text@.len(),
    ensures
        match r {
            Some(e) => pos <= e <= text@.len() && (anchored_end ==> e == text@.len())
                && seq_matches(pieces_model(pieces@).skip(pi as int), text@, pos as int, e as int),
            None => forall|e: int|
                pos <= e <= text@.len() && (anchored_end ==> e == text@.len()) ==> !#[trigger] seq_matches(
                    pieces_model(pieces@).skip(pi as int),
                    text@,
                    pos as int,
                    e,
                ),
        },
    decreases pieces@.len() - pi, 1nat,
{
    if pi == pieces.len() {
        assert(pieces_model(pieces@).skip(pi as int).len() == 0);
        if anchored_end && pos != text.len() {
            None
        } else {
            Some(pos)
        }
    } else {
        repeat_match(pieces, pi, text, pos, anchored_end)
    }
}

/// Matches piece `pi` greedily, then backtracks one repetition at a time until the remaining
/// pieces match.
fn repeat_match(
    pieces: &Vec<Piece>,
    pi: usize,
    text: &Vec<char>,
    pos: usize,
    anchored_end: bool,
) -> (r: Option<usize>)
    requires
        pi < pieces@.len(),
        pos <= text@.len(),
    ensures
        match r {
            Some(e) => pos <= e <= text@.len() && (anchored_end ==> e == text@.len())
                && seq_matches(pieces_model(pieces@).skip(pi as int), text@, pos as int, e as int),
            None => forall|e: int|
                pos <= e <= text@.len() && (anchored_end ==> e == text@.len()) ==> !#[trigger] seq_matches(
                    pieces_model(pieces@).skip(pi as int),
                    text@,
                    pos as int,
                    e,
                ),
        },
    decreases pieces@.len() - pi, 0nat,
{
    let piece = &pieces[pi];
    let n = pieces.len();
    let tl = text.len();
    let ghost ps = pieces_model(pieces@).skip(pi as int);
    let ghost rest = pieces_model(pieces@).skip(pi + 1);
    let ghost pm = piece@;
    assert(ps[0] == pm);
    assert(ps.drop_first() =~= rest);
    let mut k: usize = 0;
    while k < tl - pos && below_max(piece.max, k) && atom_accepts_exec(&piece.atom, text[pos + k])
        invariant
            tl == text@.len(),
            pos + k <= text@.len(),
            run_ok(pm.atom, text@, pos as int, k as int),
            pm == piece@,
            match piece.max {
                Some(m) => k <= m,
                None => true,
            },
        decreases text@.len() - pos - k,
    {
        k = k + 1;
    }
    // No longer run is possible: `k` stopped at the end of `text`, at the bound, or at a
    // character the atom refuses.
    assert forall|k2: int|
        k < k2 && pos + k2 <= text@.len() && count_ok(pm, k2) implies !#[trigger] run_ok(
        pm.atom,
        text@,
        pos as int,
        k2,
    ) by {
        if run_ok(pm.atom, text@, pos as int, k2) {
            assert(atom_accepts(pm.atom, text@[pos + k]));
        }
    }
    if k < piece.min {
        assert forall|e: int|
            pos <= e <= text@.len() && (anchored_end ==> e == text@.len()) implies !seq_matches(
                ps,
                text@,
                pos as int,
                e,
            ) by {
            if seq_matches(ps, text@, pos as int, e) {
                let k2 = lemma_seq_matches_elim(ps, text@, pos as int, e);
                assert(run_ok(pm.atom, text@, pos as int, k2));
            }
        }
        return None;
    }
    let mut j = k;
    loop
        invariant
            n == pieces@.len(),
            tl == text@.len(),
            pi < pieces@.len(),
            pos + k <= text@.len(),
            piece.min <= j <= k,
            pm == piece@,
            ps == pieces_model(pieces@).skip(pi as int),
            rest == pieces_model(pieces@).skip(pi + 1),
            ps.len() > 0,
            ps[0] == pm,
            ps.drop_first() == rest,
            run_ok(pm.atom, text@, pos as int, k as int),
            match piece.max {
                Some(m) => k <= m,
                None => true,
            },
            forall|k2: int|
                k < k2 && pos + k2 <= text@.len() && count_ok(pm, k2) ==> !#[trigger] run_ok(
                    pm.atom,
                    text@,
                    pos as int,
                    k2,
                ),
            forall|q: int, e: int|
                pos + j < q <= pos + k && q <= e <= text@.len() && (anchored_end ==> e
                    == text@.len()) ==> !#[trigger] seq_matches(rest, text@, q, e),
        decreases j,
    {
        match match_seq(pieces, pi + 1, text, pos + j, anchored_end) {
            Some(e) => {
                proof {
                    assert(run_ok(pm.atom, text@, pos as int, j as int));
                    lemma_seq_matches_intro(ps, text@, pos as int, j as int, e as int);
                }
                return Some(e);
            },
            None => {},
        }
        if j == piece.min {
            assert forall|e: int|
                pos <= e <= text@.len() && (anchored_end ==> e == text@.len()) implies !seq_matches(
                    ps,
                    text@,
                    pos as int,
                    e,
                ) by {
                if seq_matches(ps, text@, pos as int, e) {
                    let k2 = lemma_seq_matches_elim(ps, text@, pos as int, e);
                    assert(run_ok(pm.atom, text@, pos as int, k2));
                    assert(k2 <= k);
                    assert(seq_matches(rest, text@, pos + k2, e));
                }
            }
            return None;
        }
        j = j - 1;
    }
}

impl Pattern {
    /// Whether some stretch of `text` matches the pattern (search semantics), honouring the
    /// `^` and `$` anchors.
    pub fn is_match(&self, text: &str) -> (r: bool)
        ensures
            r == pattern_matches(self@, text@),
    {
        let chars = chars_of(text);
        let ghost ps = pieces_model(self.ast@);
        assert(ps.skip(0) =~= ps);
        assert(self@.pieces == ps);
        if self.anchored_start {
            let r = match_seq(&self.ast, 0, &chars, 0, self.anchored_end);
            proof {
                if r is None {
                    assert forall|i: int, j: int|
                        0 <= i <= j <= text@.len() && i == 0 && (self.anchored_end ==> j
                            == text@.len()) implies !seq_matches(ps, text@, i, j) by {
                        assert(!seq_matches(ps.skip(0), text@, 0, j));
                    }
                } else {
                    assert(seq_matches(ps, text@, 0, r->0 as int));
                }
            }
            return r.is_some();
        }
        let mut offset: usize = 0;
        loop
            invariant
                offset <= chars@.len(),
                chars@ == text@,
                ps == pieces_model(self.ast@),
                self@.pieces == ps,
                ps.skip(0) == ps,
                !self.anchored_start,
                forall|i: int, j: int|
                    0 <= i < offset && i <= j <= text@.len() && (self.anchored_end ==> j
                        == text@.len()) ==> !#[trigger] seq_matches(ps, text@, i, j),
            decreases chars@.len() - offset,
        {
            let r = match_seq(&self.ast, 0, &chars, offset, self.anchored_end);
            if r.is_some() {
                assert(seq_matches(ps, text@, offset as int, r->0 as int));
                return true;
            }
            if offset == chars.len() {
                assert forall|i: int, j: int|
                    0 <= i <= j <= text@.len() && (self.anchored_end ==> j == text@.len()) implies !seq_matches(
                        ps,
                        text@,
                        i,
                        j,
                    ) by {
                    if i == offset {
                        assert(!seq_matches(ps.skip(0), text@, offset as int, j));
                    }
                }
                return false;
            }
            offset = offset + 1;
        }
    }
}

} // verus!
