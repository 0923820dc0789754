//! The language of the `pattern` subset: its syntax (how a source string is read into pieces)
//! and what a compiled pattern matches.
use vstd::prelude::*;
use crate::text::{ascii_digit, unicode_alphanumeric, unicode_whitespace};

verus! {

/// One member of a character class.
#[derive(Clone, Copy, Debug, PartialEq, Eq, Structural)]
pub enum ClassItem {
    Char(char),
    Range(char, char),
    /// `\d` (or `\D` when the flag is set).
    Digit(bool),
    /// `\w` (or `\W` when the flag is set).
    Word(bool),
    /// `\s` (or `\S` when the flag is set).
    Space(bool),
}

/// What a single-character piece of a pattern accepts.
pub enum AtomModel {
    Any,
    Literal(char),
    /// A class and whether it is negated.
    Class(Seq<ClassItem>, bool),
}

/// An atom repeated between `min` and `max` times (`max` unbounded when `None`).
pub struct PieceModel {
    pub atom: AtomModel,
    pub min: nat,
    pub max: Option<nat>,
}

/// A compiled pattern: its pieces and whether it is anchored at the start (`^`) and at the
/// end (`$`).
pub struct PatternModel {
    pub pieces: Seq<PieceModel>,
    pub anchored_start: bool,
    pub anchored_end: bool,
}

pub open spec fn item_hit(item: ClassItem, c: char) -> bool {
    match item {
        ClassItem::Char(x) => x == c,
        ClassItem::Range(lo, hi) => lo <= c && c <= hi,
        ClassItem::Digit(neg) => ascii_digit(c) != neg,
        ClassItem::Word(neg) => (unicode_alphanumeric(c) || c == '_') != neg,
        ClassItem::Space(neg) => unicode_whitespace(c) != neg,
    }
}

pub open spec fn class_hit(items: Seq<ClassItem>, c: char) -> bool {
    exists|t: int| 0 <= t < items.len() && item_hit(#[trigger] items[t], c)
}

pub open spec fn atom_accepts(a: AtomModel, c: char) -> bool {
    match a {
        AtomModel::Any => true,
        AtomModel::Literal(x) => x == c,
        AtomModel::Class(items, negated) => class_hit(items, c) != negated,
    }
}

/// The `k` characters of `text` from position `i` are all accepted by `a`.
pub open spec fn run_ok(a: AtomModel, text: Seq<char>, i: int, k: int) -> bool {
    forall|t: int| i <= t < i + k ==> atom_accepts(a, #[trigger] text[t])
}

pub open spec fn count_ok(p: PieceModel, k: int) -> bool {
    p.min <= k && match p.max {
        Some(m) => k <= m,
        None => true,
    }
}

/// `pieces` match exactly the characters of `text` from `i` to `j`.
pub open spec fn seq_matches(pieces: Seq<PieceModel>, text: Seq<char>, i: int, j: int) -> bool
    decreases pieces.len(), j - i + 2,
{
    if pieces.len() == 0 {
        i == j
    } else if i > j {
        false
    } else {
        run_from(pieces, text, i, j, 0)
    }
}

/// The first piece, repeated some number of times that is at least `k`, and the rest of the
/// pieces after it match the characters of `text` from `i` to `j`.
pub open spec fn run_from(pieces: Seq<PieceModel>, text: Seq<char>, i: int, j: int, k: int) -> bool
    decreases pieces.len(), j - i - k + 1,
{
    if pieces.len() == 0 || k < 0 || i + k > j {
        false
    } else {
        (count_ok(pieces[0], k) && run_ok(pieces[0].atom, text, i, k) && seq_matches(
            pieces.drop_first(),
            text,
            i + k,
            j,
        )) || (i + k < j && run_from(pieces, text, i, j, k + 1))
    }
}

proof fn lemma_run_from_intro(pieces: Seq<PieceModel>, text: Seq<char>, i: int, j: int, k: int, t: int)
    requires
        pieces.len() > 0,
        0 <= t <= k,
        i + k <= j,
        count_ok(pieces[0], k),
        run_ok(pieces[0].atom, text, i, k),
        seq_matches(pieces.drop_first(), text, i + k, j),
    ensures
        run_from(pieces, text, i, j, t),
    decreases k - t,
{
    if t < k {
        lemma_run_from_intro(pieces, text, i, j, k, t + 1);
    }
}

proof fn lemma_run_from_elim(pieces: Seq<PieceModel>, text: Seq<char>, i: int, j: int, t: int) -> (k:
    int)
    requires
        run_from(pieces, text, i, j, t),
    ensures
        pieces.len() > 0,
        0 <= t <= k,
        i + k <= j,
        count_ok(pieces[0], k),
        run_ok(pieces[0].atom, text, i, k),
        seq_matches(pieces.drop_first(), text, i + k, j),
    decreases j - i - t + 1,
{
    if count_ok(pieces[0], t) && run_ok(pieces[0].atom, text, i, t) && seq_matches(
        pieces.drop_first(),
        text,
        i + t,
        j,
    ) {
        t
    } else {
        lemma_run_from_elim(pieces, text, i, j, t + 1)
    }
}

/// Matching the first piece `k` times and the rest from there matches the whole sequence.
pub proof fn lemma_seq_matches_intro(pieces: Seq<PieceModel>, text: Seq<char>, i: int, k: int, j: int)
    requires
        pieces.len() > 0,
        0 <= k,
        i + k <= j,
        count_ok(pieces[0], k),
        run_ok(pieces[0].atom, text, i, k),
        seq_matches(pieces.drop_first(), text, i + k, j),
    ensures
        seq_matches(pieces, text, i, j),
{
    lemma_run_from_intro(pieces, text, i, j, k, 0);
}

/// A match of a non-empty sequence repeats its first piece some `k` times.
pub proof fn lemma_seq_matches_elim(pieces: Seq<PieceModel>, text: Seq<char>, i: int, j: int) -> (k:
    int)
    requires
        pieces.len() > 0,
        seq_matches(pieces, text, i, j),
    ensures
        0 <= k,
        i + k <= j,
        count_ok(pieces[0], k),
        run_ok(pieces[0].atom, text, i, k),
        seq_matches(pieces.drop_first(), text, i + k, j),
{
    lemma_run_from_elim(pieces, text, i, j, 0)
}

/// Whether some stretch of `text` matches the pattern, honouring its anchors.
pub open spec fn pattern_matches(p: PatternModel, text: Seq<char>) -> bool {
    exists|i: int, j: int|
        #![trigger seq_matches(p.pieces, text, i, j)]
        0 <= i <= j <= text.len() && (p.anchored_start ==> i == 0) && (p.anchored_end ==> j
            == text.len()) && seq_matches(p.pieces, text, i, j)
}

pub open spec fn single(atom: AtomModel) -> PieceModel {
    PieceModel { atom, min: 1, max: Some(1) }
}

/// The piece for `atom` followed, at `next`, by an optional `*`, `+` or `?`, and the position
/// after it.
pub open spec fn quantified(chars: Seq<char>, next: int, atom: AtomModel) -> (PieceModel, int) {
    if 0 <= next < chars.len() && chars[next] == '*' {
        (PieceModel { atom, min: 0, max: None }, next + 1)
    } else if 0 <= next < chars.len() && chars[next] == '+' {
        (PieceModel { atom, min: 1, max: None }, next + 1)
    } else if 0 <= next < chars.len() && chars[next] == '?' {
        (PieceModel { atom, min: 0, max: Some(1) }, next + 1)
    } else {
        (single(atom), next)
    }
}

/// The class item that an escape letter stands for, if it is one of `d D w W s S`.
pub open spec fn escape_class(e: char) -> Option<ClassItem> {
    if e == 'd' {
        Some(ClassItem::Digit(false))
    } else if e == 'D' {
        Some(ClassItem::Digit(true))
    } else if e == 'w' {
        Some(ClassItem::Word(false))
    } else if e == 'W' {
        Some(ClassItem::Word(true))
    } else if e == 's' {
        Some(ClassItem::Space(false))
    } else if e == 'S' {
        Some(ClassItem::Space(true))
    } else {
        None
    }
}

/// The members of a class read from `pos` onwards and the position after its closing `]`, added
/// to `acc`. A `]` closes the class except in first position; `lo-hi` is a range unless the `-`
/// is followed by `]` or by nothing.
/// The character that a class member starting at `pos` stands for (escaped or not).
pub open spec fn member_char(chars: Seq<char>, pos: int) -> char {
    if chars[pos] == '\\' {
        chars[pos + 1]
    } else {
        chars[pos]
    }
}

/// The position just after a class member's character.
pub open spec fn member_end(chars: Seq<char>, pos: int) -> int {
    if chars[pos] == '\\' {
        pos + 2
    } else {
        pos + 1
    }
}

/// The members of a class read from `pos` onwards and the position after its closing `]`, added
/// to `acc`. A `]` closes the class except in first position; `lo-hi` is a range unless the `-`
/// is followed by `]` or by nothing.
pub open spec fn class_items(chars: Seq<char>, pos: int, first: bool, acc: Seq<ClassItem>) -> Result<
    (Seq<ClassItem>, int),
    (),
>
    decreases chars.len() - pos,
{
    if pos < 0 || pos >= chars.len() {
        Err(())
    } else if chars[pos] == ']' && !first {
        Ok((acc, pos + 1))
    } else if chars[pos] == '\\' && pos + 1 >= chars.len() {
        Err(())
    } else if chars[pos] == '\\' && escape_class(chars[pos + 1]) is Some {
        class_items(chars, pos + 2, false, acc.push(escape_class(chars[pos + 1])->0))
    } else {
        let lo = member_char(chars, pos);
        let p2 = member_end(chars, pos);
        if p2 + 1 < chars.len() && chars[p2] == '-' && chars[p2 + 1] != ']' {
            class_items(chars, p2 + 2, false, acc.push(ClassItem::Range(lo, chars[p2 + 1])))
        } else {
            class_items(chars, p2, false, acc.push(ClassItem::Char(lo)))
        }
    }
}

#[verifier::spinoff_prover]
pub proof fn lemma_class_items_after(chars: Seq<char>, pos: int, first: bool, acc: Seq<ClassItem>)
    ensures
        class_items(chars, pos, first, acc) is Ok ==> pos < class_items(chars, pos, first, acc)->Ok_0.1
            <= chars.len(),
    decreases chars.len() - pos,
{
    if pos < 0 || pos >= chars.len() {
    } else if chars[pos] == ']' && !first {
    } else if chars[pos] == '\\' && pos + 1 >= chars.len() {
    } else if chars[pos] == '\\' && escape_class(chars[pos + 1]) is Some {
        lemma_class_items_after(chars, pos + 2, false, acc.push(escape_class(chars[pos + 1])->0));
    } else {
        let lo = member_char(chars, pos);
        let p2 = member_end(chars, pos);
        assert(pos < p2 <= pos + 2);
        if p2 + 1 < chars.len() && chars[p2] == '-' && chars[p2 + 1] != ']' {
            lemma_class_items_after(chars, p2 + 2, false, acc.push(ClassItem::Range(lo, chars[p2 + 1])));
        } else {
            lemma_class_items_after(chars, p2, false, acc.push(ClassItem::Char(lo)));
        }
    }
}

pub proof fn lemma_class_at_after(chars: Seq<char>, pos: int)
    ensures
        class_at(chars, pos) is Ok ==> pos < class_at(chars, pos)->Ok_0.2 <= chars.len(),
{
    let negated = 0 <= pos < chars.len() && chars[pos] == '^';
    let start = if negated {
        pos + 1
    } else {
        pos
    };
    lemma_class_items_after(chars, start, true, Seq::empty());
}

/// A class whose `[` stands just before `pos`: its members, whether it is negated, and the
/// position after its `]`.
pub open spec fn class_at(chars: Seq<char>, pos: int) -> Result<(Seq<ClassItem>, bool, int), ()> {
    let negated = 0 <= pos < chars.len() && chars[pos] == '^';
    let start = if negated {
        pos + 1
    } else {
        pos
    };
    match class_items(chars, start, true, Seq::empty()) {
        Ok((items, after)) => Ok((items, negated, after)),
        Err(e) => Err(e),
    }
}

/// The pieces read from `pos` onwards, added to `acc`, and whether the pattern ends with the
/// `$` anchor. A `$` is an anchor only as the last character; elsewhere it is literal. A
/// quantifier with nothing to repeat, a `^` after the start, an unclosed class and a trailing
/// `\` are errors.
pub open spec fn parse_pieces(chars: Seq<char>, pos: int, acc: Seq<PieceModel>) -> Result<
    (Seq<PieceModel>, bool),
    (),
>
    decreases chars.len() - pos,
{
    if pos < 0 || pos >= chars.len() {
        Ok((acc, false))
    } else {
        let c = chars[pos];
        if c == '$' {
            if pos + 1 == chars.len() {
                Ok((acc, true))
            } else {
                parse_pieces(chars, pos + 1, acc.push(single(AtomModel::Literal('$'))))
            }
        } else if c == '*' || c == '+' || c == '?' || c == '^' {
            Err(())
        } else if c == '[' {
            let r = class_at(chars, pos + 1);
            if r is Ok {
                let q = quantified(chars, r->Ok_0.2, AtomModel::Class(r->Ok_0.0, r->Ok_0.1));
                proof {
                    lemma_class_at_after(chars, pos + 1);
                }
                parse_pieces(chars, q.1, acc.push(q.0))
            } else {
                Err(())
            }
        } else if c == '\\' {
            if pos + 1 >= chars.len() {
                Err(())
            } else {
                let e = chars[pos + 1];
                let atom = match escape_class(e) {
                    Some(item) => AtomModel::Class(seq![item], false),
                    None => AtomModel::Literal(e),
                };
                let q = quantified(chars, pos + 2, atom);
                parse_pieces(chars, q.1, acc.push(q.0))
            }
        } else {
            let atom = if c == '.' {
                AtomModel::Any
            } else {
                AtomModel::Literal(c)
            };
            let q = quantified(chars, pos + 1, atom);
            parse_pieces(chars, q.1, acc.push(q.0))
        }
    }
}

/// What `compile` reads from a pattern source.
pub open spec fn compile_model(src: Seq<char>) -> Result<PatternModel, ()> {
    let anchored = src.len() > 0 && src[0] == '^';
    let start: int = if anchored {
        1
    } else {
        0
    };
    match parse_pieces(src, start, Seq::empty()) {
        Ok((pieces, end)) => Ok(PatternModel { pieces, anchored_start: anchored, anchored_end: end }),
        Err(e) => Err(e),
    }
}

/// The pattern `^\w$` compiles to one anchored word-class piece, and it matches a
/// one-character text exactly when the character is alphanumeric or `_`.
pub proof fn word_class_is_alphanumerics_and_underscore(c: char)
    ensures
        compile_model("^\\w$"@) matches Ok(p) && (pattern_matches(p, seq![c]) <==> (unicode_alphanumeric(c) || c == '_')),
{
    reveal_strlit("^\\w$");
    assert("^\\w$"@ =~= seq!['^', '\\', 'w', '$']);
    lemma_single_class_matches("^\\w$"@, 'w', c);
}

/// The pattern `^\d$` matches a one-character text exactly when the character is an ASCII
/// digit, and `^\s$` exactly when it is whitespace.
pub proof fn digit_and_space_classes(c: char)
    ensures
        compile_model("^\\d$"@) matches Ok(p) && (pattern_matches(p, seq![c]) <==> ('0' <= c && c <= '9')),
        compile_model("^\\s$"@) matches Ok(p) && (pattern_matches(p, seq![c]) <==> unicode_whitespace(c)),
{
    reveal_strlit("^\\d$");
    reveal_strlit("^\\s$");
    assert("^\\d$"@ =~= seq!['^', '\\', 'd', '$']);
    assert("^\\s$"@ =~= seq!['^', '\\', 's', '$']);
    lemma_single_class_matches("^\\d$"@, 'd', c);
    lemma_single_class_matches("^\\s$"@, 's', c);
    assert(ascii_digit(c) <==> ('0' <= c && c <= '9'));
}

/// `^\e$`, for a class escape letter `e`, compiles to one anchored piece of that class, which
/// matches a one-character text exactly when the class holds the character.
proof fn lemma_single_class_matches(src: Seq<char>, e: char, c: char)
    requires
        src == seq!['^', '\\', e, '$'],
        escape_class(e) is Some,
    ensures
        compile_model(src) matches Ok(p) && (pattern_matches(p, seq![c]) <==> item_hit(escape_class(e)->0, c)),
{
    let atom = AtomModel::Class(seq![escape_class(e)->0], false);
    let piece = single(atom);
    assert(quantified(src, 3, atom) == (piece, 3int));
    reveal_with_fuel(parse_pieces, 3);
    assert(parse_pieces(src, 3, seq![piece]) == Ok::<(Seq<PieceModel>, bool), ()>((seq![piece], true)));
    assert(parse_pieces(src, 1, Seq::empty()) == parse_pieces(src, 3, Seq::<PieceModel>::empty().push(piece)));
    assert(Seq::<PieceModel>::empty().push(piece) =~= seq![piece]);
    let p = PatternModel { pieces: seq![piece], anchored_start: true, anchored_end: true };
    assert(compile_model(src) == Ok::<PatternModel, ()>(p));
    let text = seq![c];
    let rest = seq![piece].drop_first();
    assert(rest =~= Seq::<PieceModel>::empty());
    assert(seq_matches(rest, text, 1, 1));
    reveal_with_fuel(run_from, 2);
    assert(class_hit(seq![escape_class(e)->0], c) <==> item_hit(escape_class(e)->0, c)) by {
        if item_hit(escape_class(e)->0, c) {
            assert(seq![escape_class(e)->0][0] == escape_class(e)->0);
        }
    }
    assert(run_ok(atom, text, 0, 1) <==> atom_accepts(atom, text[0])) by {
        if atom_accepts(atom, text[0]) {
            assert forall|t: int| 0 <= t < 1 implies atom_accepts(atom, #[trigger] text[t]) by {
                assert(t == 0);
            }
        }
    }
    assert(p.pieces[0] == piece);
    assert(p.pieces.drop_first() == rest);
    assert(count_ok(piece, 1) && !count_ok(piece, 0));
    assert(run_from(p.pieces, text, 0, 1, 1) == (run_ok(atom, text, 0, 1) && seq_matches(rest, text, 1, 1)));
    assert(run_from(p.pieces, text, 0, 1, 0) == run_from(p.pieces, text, 0, 1, 1));
    assert(seq_matches(p.pieces, text, 0, 1) == run_from(p.pieces, text, 0, 1, 0));
    assert(text[0] == c);
    assert(seq_matches(p.pieces, text, 0, 1) <==> item_hit(escape_class(e)->0, c));
    if pattern_matches(p, text) {
        let (i, j) = choose|i: int, j: int| 0 <= i <= j <= text.len() && (p.anchored_start ==> i == 0) && (p.anchored_end
            ==> j == text.len()) && seq_matches(p.pieces, text, i, j);
        assert(i == 0 && j == 1);
    }
    if item_hit(escape_class(e)->0, c) {
        assert(seq_matches(p.pieces, text, 0, 1));
    }
}

/// The negated escapes are complements: `^\W$` matches a one-character text exactly when the
/// character is neither alphanumeric nor `_`, `^\D$` when it is no ASCII digit, and `^\S$`
/// when it is no whitespace.
pub proof fn negated_classes_are_complements(c: char)
    ensures
        compile_model("^\\W$"@) matches Ok(p) && (pattern_matches(p, seq![c]) <==> !(unicode_alphanumeric(c) || c == '_')),
        compile_model("^\\D$"@) matches Ok(p) && (pattern_matches(p, seq![c]) <==> !('0' <= c && c <= '9')),
        compile_model("^\\S$"@) matches Ok(p) && (pattern_matches(p, seq![c]) <==> !unicode_whitespace(c)),
{
    reveal_strlit("^\\W$");
    reveal_strlit("^\\D$");
    reveal_strlit("^\\S$");
    assert("^\\W$"@ =~= seq!['^', '\\', 'W', '$']);
    assert("^\\D$"@ =~= seq!['^', '\\', 'D', '$']);
    assert("^\\S$"@ =~= seq!['^', '\\', 'S', '$']);
    lemma_single_class_matches("^\\W$"@, 'W', c);
    lemma_single_class_matches("^\\D$"@, 'D', c);
    lemma_single_class_matches("^\\S$"@, 'S', c);
}

} // verus!
