//! Rendering a node in canonical block YAML.
use vstd::prelude::*;
use crate::charseq::pieces;
use crate::diff::{lines_of, text_lines};
use crate::document::{arena_ok, Document, NodeData, NodeKind, Scalar};
use crate::node::{NodeId, ScalarStyle, ScalarValue};
use crate::text::{chars_of, decimal_text, digit_char, is_whitespace, push_chars, push_text, string_from_chars, unicode_whitespace};

verus! {

/// How a float scalar prints: the text its double displays as.
pub trait FloatDisplay {
    fn display(&self, text: &str) -> String;
}

/// Float texts paired with how they print.
pub struct FloatTable {
    entries: Vec<(String, String)>,
}

impl View for FloatTable {
    type V = Seq<(Seq<char>, Seq<char>)>;

    closed spec fn view(&self) -> Seq<(Seq<char>, Seq<char>)> {
        self.entries@.map_values(|e: (String, String)| (e.0@, e.1@))
    }
}

/// How float text `t` prints by `table`: the first entry for it, or the text itself.
pub open spec fn shown(table: Seq<(Seq<char>, Seq<char>)>, t: Seq<char>) -> Seq<char>
    decreases table.len(),
{
    if table.len() == 0 {
        t
    } else if table[0].0 == t {
        table[0].1
    } else {
        shown(table.drop_first(), t)
    }
}

/// Node `k` of `nodes` is a float scalar of text `t`.
pub open spec fn float_at(nodes: Seq<NodeData>, k: int, t: Seq<char>) -> bool {
    &&& 0 <= k < nodes.len()
    &&& nodes[k].kind matches NodeKind::Scalar(sc)
    &&& sc.value matches ScalarValue::Float(v)
    &&& v@ == t
}

/// Some float scalar of `nodes` has text `t`.
pub open spec fn float_text_of(nodes: Seq<NodeData>, t: Seq<char>) -> bool {
    exists|k: int| #[trigger] float_at(nodes, k, t)
}

/// Asks `floats` how the float of every float scalar of `document` prints: the table has an
/// entry for the text of each float scalar, and for nothing else.
pub fn float_table<F: FloatDisplay>(document: &Document, floats: &F) -> (r: FloatTable)
    ensures
        forall|k: int, t: Seq<char>| #[trigger] float_at(document.nodes@, k, t) ==> exists|i: int|
            0 <= i < r@.len() && #[trigger] r@[i].0 == t,
        forall|i: int| 0 <= i < r@.len() ==> float_text_of(document.nodes@, #[trigger] r@[i].0),
{
    let mut entries: Vec<(String, String)> = Vec::new();
    let mut i: usize = 0;
    while i < document.nodes.len()
        invariant
            i <= document.nodes@.len(),
            forall|k: int, t: Seq<char>| 0 <= k < i && #[trigger] float_at(document.nodes@, k, t) ==> exists|j: int|
                0 <= j < entries@.len() && #[trigger] entries@[j].0@ == t,
            forall|j: int| 0 <= j < entries@.len() ==> float_text_of(document.nodes@, (#[trigger] entries@[j]).0@),
        decreases document.nodes@.len() - i,
    {
        if let NodeKind::Scalar(s) = &document.nodes[i].kind {
            if let ScalarValue::Float(t) = &s.value {
                let ghost before = entries@;
                entries.push((t.clone(), floats.display(t.as_str())));
                proof {
                    assert(float_at(document.nodes@, i as int, t@));
                    assert(entries@[before.len() as int].0@ == t@);
                    assert forall|j: int| 0 <= j < entries@.len() implies float_text_of(document.nodes@, (#[trigger] entries@[j]).0@) by {
                        if j < before.len() {
                            assert(entries@[j] == before[j]);
                        } else {
                            assert(float_at(document.nodes@, i as int, entries@[j].0@));
                        }
                    }
                    assert forall|k: int, u: Seq<char>| 0 <= k < i + 1 && #[trigger] float_at(document.nodes@, k, u) implies exists|j: int|
                        0 <= j < entries@.len() && #[trigger] entries@[j].0@ == u by {
                        if k < i {
                            let j = choose|j: int| 0 <= j < before.len() && #[trigger] before[j].0@ == u;
                            assert(entries@[j] == before[j]);
                        } else {
                            assert(entries@[before.len() as int].0@ == u);
                        }
                    }
                }
            }
        }
        i = i + 1;
    }
    let r = FloatTable { entries };
    proof {
        assert forall|k: int, t: Seq<char>| #[trigger] float_at(document.nodes@, k, t) implies exists|i: int|
            0 <= i < r@.len() && #[trigger] r@[i].0 == t by {
            let j = choose|j: int| 0 <= j < entries@.len() && #[trigger] entries@[j].0@ == t;
            assert(r@[j].0 == t);
        }
        assert forall|i: int| 0 <= i < r@.len() implies float_text_of(document.nodes@, #[trigger] r@[i].0) by {
            assert(r@[i].0 == entries@[i].0@);
        }
    }
    r
}

pub(crate) fn shown_exec(table: &FloatTable, t: &str) -> (r: Vec<char>)
    ensures
        r@ == shown(table@, t@),
{
    let mut i: usize = 0;
    assert(table@.skip(0) =~= table@);
    while i < table.entries.len()
        invariant
            i <= table.entries@.len(),
            shown(table@, t@) == shown(table@.skip(i as int), t@),
        decreases table.entries@.len() - i,
    {
        proof {
            assert(table@.skip(i as int).drop_first() =~= table@.skip(i + 1));
            assert(table@.skip(i as int)[0] == table@[i as int]);
        }
        if crate::text::same_text(table.entries[i].0.as_str(), t) {
            return chars_of(table.entries[i].1.as_str());
        }
        i = i + 1;
    }
    proof {
        assert(table@.skip(i as int).len() == 0);
    }
    chars_of(t)
}

/// Characters that force a plain string to be quoted.
pub open spec fn special_char(c: char) -> bool {
    ": #[]{},&*!|>'\"%@`"@.contains(c) || unicode_whitespace(c)
}

pub open spec fn escape_char(c: char) -> Seq<char> {
    if c == '"' {
        "\\\""@
    } else if c == '\\' {
        "\\\\"@
    } else if c == '\n' {
        "\\n"@
    } else if c == '\r' {
        "\\r"@
    } else if c == '\t' {
        "\\t"@
    } else {
        seq![c]
    }
}

/// `s` with `"`, `\` and the line-breaking controls escaped.
pub open spec fn escaped(s: Seq<char>) -> Seq<char>
    decreases s.len(),
{
    if s.len() == 0 {
        Seq::empty()
    } else {
        escaped(s.drop_last()) + escape_char(s.last())
    }
}

/// `s` with every `'` doubled.
pub open spec fn quotes_doubled(s: Seq<char>) -> Seq<char>
    decreases s.len(),
{
    if s.len() == 0 {
        Seq::empty()
    } else {
        quotes_doubled(s.drop_last()) + (if s.last() == '\'' { "''"@ } else { seq![s.last()] })
    }
}

/// The decimal spelling of an integer, with a `-` when negative.
pub open spec fn int_text(i: int) -> Seq<char> {
    if i < 0 {
        seq!['-'] + decimal_text((-i) as nat)
    } else {
        decimal_text(i as nat)
    }
}

/// How a scalar prints inline: a double-quoted string escaped, a string that is empty or holds
/// a special character single-quoted, a float as `table` says, anything else as written.
pub open spec fn scalar_text(sc: Scalar, table: Seq<(Seq<char>, Seq<char>)>) -> Seq<char> {
    match sc.value {
        ScalarValue::String(v) => if sc.style == ScalarStyle::DoubleQuoted {
            seq!['"'] + escaped(v@) + seq!['"']
        } else if v@.len() == 0 || exists|i: int| 0 <= i < v@.len() && special_char(#[trigger] v@[i]) {
            seq!['\''] + quotes_doubled(v@) + seq!['\'']
        } else {
            v@
        },
        ScalarValue::Null => "null"@,
        ScalarValue::Bool(b) => if b { "true"@ } else { "false"@ },
        ScalarValue::Int(i) => int_text(i as int),
        ScalarValue::Float(t) => shown(table, t@),
        ScalarValue::Timestamp(v) => v@,
    }
}

/// The anchor that alias chains from node `id` first reach: the node's own anchor, else its
/// alias target's, and so on.
pub open spec fn anchor_spec(nodes: Seq<NodeData>, id: int) -> Option<Seq<char>>
    decreases id,
{
    if 0 <= id < nodes.len() {
        match nodes[id].anchor {
            Some(a) => Some(a@),
            None => match nodes[id].kind {
                NodeKind::Alias(t) => if (t.0 as int) < id { anchor_spec(nodes, t.0 as int) } else { None },
                _ => None,
            },
        }
    } else {
        None
    }
}

pub open spec fn alias_text(nodes: Seq<NodeData>, target: NodeId) -> Seq<char> {
    seq!['*'] + match anchor_spec(nodes, target.0 as int) {
        Some(a) => a,
        None => "<unknown>"@,
    }
}

/// A mapping or sequence with at least one entry.
pub open spec fn nonempty_collection(k: NodeKind) -> bool {
    match k {
        NodeKind::Mapping(e) => e@.len() > 0,
        NodeKind::Sequence(s) => s@.len() > 0,
        _ => false,
    }
}

/// How a node that is not a non-empty collection prints inline.
pub open spec fn inline_text(nodes: Seq<NodeData>, n: NodeData, table: Seq<(Seq<char>, Seq<char>)>) -> Seq<char> {
    match n.kind {
        NodeKind::Scalar(sc) => scalar_text(sc, table),
        NodeKind::Mapping(_) => "{}"@,
        NodeKind::Sequence(_) => "[]"@,
        NodeKind::Alias(t) => alias_text(nodes, t),
    }
}

pub open spec fn spaces(n: nat) -> Seq<char> {
    Seq::new(n, |i: int| ' ')
}

/// The lines of a block scalar, each on its own line after `prefix` and a space.
pub open spec fn block_lines(lines: Seq<Seq<char>>, prefix: Seq<char>) -> Seq<char>
    decreases lines.len(),
{
    if lines.len() == 0 {
        Seq::empty()
    } else {
        block_lines(lines.drop_last(), prefix) + prefix + seq![' '] + lines.last() + seq!['\n']
    }
}

/// The key of a mapping entry as it prints: a scalar key inline, anything else as nothing.
pub open spec fn key_text(nodes: Seq<NodeData>, key: NodeId, table: Seq<(Seq<char>, Seq<char>)>) -> Seq<char> {
    if (key.0 as int) < nodes.len() {
        match nodes[key.0 as int].kind {
            NodeKind::Scalar(sc) => scalar_text(sc, table),
            _ => Seq::empty(),
        }
    } else {
        Seq::empty()
    }
}

/// Node `id` in block style at `indent`: a scalar on its own line (a block scalar as `|` or `>`
/// and its lines), an empty collection as `{}` or `[]`, a mapping entry by entry, a sequence
/// item by item, an alias as `*anchor`. Only children below `id` are followed, which in a
/// well-formed arena is all of them.
pub open spec fn block_text(nodes: Seq<NodeData>, id: int, indent: nat, table: Seq<(Seq<char>, Seq<char>)>) -> Seq<char>
    decreases id, 1int, 0int,
{
    if 0 <= id < nodes.len() {
        let prefix = spaces(indent);
        match nodes[id].kind {
            NodeKind::Scalar(sc) => if sc.style == ScalarStyle::BlockLiteral || sc.style == ScalarStyle::BlockChomped {
                prefix + (if sc.style == ScalarStyle::BlockLiteral { "|"@ } else { ">"@ }) + seq!['\n'] + block_lines(text_lines(sc.raw@), prefix)
            } else {
                prefix + scalar_text(sc, table) + seq!['\n']
            },
            NodeKind::Mapping(entries) => if entries@.len() == 0 {
                prefix + "{}\n"@
            } else {
                entries_text(nodes, entries@, id, indent, table)
            },
            NodeKind::Sequence(items) => if items@.len() == 0 {
                prefix + "[]\n"@
            } else {
                items_text(nodes, items@, id, indent, table)
            },
            NodeKind::Alias(t) => prefix + alias_text(nodes, t) + seq!['\n'],
        }
    } else {
        Seq::empty()
    }
}

/// The lines of mapping entries at `indent`: `key:` and the value block below it for a
/// non-empty collection, `key: value` otherwise, `key:` alone for a missing value.
pub open spec fn entries_text(
    nodes: Seq<NodeData>,
    entries: Seq<(NodeId, NodeId)>,
    bound: int,
    indent: nat,
    table: Seq<(Seq<char>, Seq<char>)>,
) -> Seq<char>
    decreases bound, 0int, entries.len(),
{
    if entries.len() == 0 {
        Seq::empty()
    } else {
        let prefix = spaces(indent);
        let (k, v) = entries.last();
        let key = key_text(nodes, k, table);
        let line = if (v.0 as int) < nodes.len() {
            if nonempty_collection(nodes[v.0 as int].kind) {
                prefix + key + ":\n"@ + (if (v.0 as int) < bound { block_text(nodes, v.0 as int, indent + 2, table) } else { Seq::empty() })
            } else {
                prefix + key + ": "@ + inline_text(nodes, nodes[v.0 as int], table) + seq!['\n']
            }
        } else {
            prefix + key + ":\n"@
        };
        entries_text(nodes, entries.drop_last(), bound, indent, table) + line
    }
}

/// The lines of sequence items at `indent`: `-` and the item block below it for a non-empty
/// collection, `- item` otherwise; a missing item prints nothing.
pub open spec fn items_text(
    nodes: Seq<NodeData>,
    items: Seq<NodeId>,
    bound: int,
    indent: nat,
    table: Seq<(Seq<char>, Seq<char>)>,
) -> Seq<char>
    decreases bound, 0int, items.len(),
{
    if items.len() == 0 {
        Seq::empty()
    } else {
        let prefix = spaces(indent);
        let it = items.last();
        let line = if (it.0 as int) < nodes.len() {
            if nonempty_collection(nodes[it.0 as int].kind) {
                prefix + "-\n"@ + (if (it.0 as int) < bound { block_text(nodes, it.0 as int, indent + 2, table) } else { Seq::empty() })
            } else {
                prefix + "- "@ + inline_text(nodes, nodes[it.0 as int], table) + seq!['\n']
            }
        } else {
            Seq::empty()
        };
        items_text(nodes, items.drop_last(), bound, indent, table) + line
    }
}

/// The rendering of `root`, ending with a line break.
pub open spec fn pretty_text(nodes: Seq<NodeData>, root: NodeId, table: Seq<(Seq<char>, Seq<char>)>) -> Seq<char> {
    let b = block_text(nodes, root.0 as int, 0, table);
    if b.len() > 0 && b.last() == '\n' {
        b
    } else {
        b.push('\n')
    }
}


/// The decimal spelling of an integer, as `i64::to_string` spells it.
pub(crate) fn int_chars(i: i64) -> (r: Vec<char>)
    ensures
        r@ == int_text(i as int),
{
    if i < 0 {
        let magnitude: u64 = if i == i64::MIN { 9223372036854775808u64 } else { (-i) as u64 };
        let mut v: Vec<char> = Vec::new();
        v.push('-');
        let d = crate::text::decimal_u64_chars(magnitude);
        push_chars(&mut v, &d);
        v
    } else {
        crate::text::decimal_u64_chars(i as u64)
    }
}

fn push_escaped(v: &mut Vec<char>, c: char)
    ensures
        final(v)@ == old(v)@ + escape_char(c),
{
    if c == '"' {
        push_text(v, "\\\"");
    } else if c == '\\' {
        push_text(v, "\\\\");
    } else if c == '\n' {
        push_text(v, "\\n");
    } else if c == '\r' {
        push_text(v, "\\r");
    } else if c == '\t' {
        push_text(v, "\\t");
    } else {
        v.push(c);
    }
}

/// Whether some character of `c` forces quoting.
fn has_special(c: &Vec<char>) -> (r: bool)
    ensures
        r == exists|i: int| 0 <= i < c@.len() && special_char(#[trigger] c@[i]),
{
    let specials = chars_of(": #[]{},&*!|>'\"%@`");
    let mut i: usize = 0;
    while i < c.len()
        invariant
            i <= c@.len(),
            specials@ == ": #[]{},&*!|>'\"%@`"@,
            forall|j: int| 0 <= j < i ==> !special_char(#[trigger] c@[j]),
        decreases c@.len() - i,
    {
        let ch = c[i];
        let mut k: usize = 0;
        let mut listed = false;
        while k < specials.len()
            invariant
                k <= specials@.len(),
                listed == (exists|j: int| 0 <= j < k && specials@[j] == ch),
            decreases specials@.len() - k,
        {
            if specials[k] == ch {
                listed = true;
            }
            k = k + 1;
        }
        if listed || is_whitespace(ch) {
            proof {
                if listed {
                    let j = choose|j: int| 0 <= j < k && specials@[j] == ch;
                    assert(specials@.contains(ch));
                }
            }
            return true;
        }
        proof {
            assert(!specials@.contains(ch)) by {
                if specials@.contains(ch) {
                    let j = choose|j: int| 0 <= j < specials@.len() && specials@[j] == ch;
                    assert(exists|j: int| 0 <= j < k && specials@[j] == ch);
                }
            }
        }
        i = i + 1;
    }
    false
}

/// How a scalar prints inline.
fn render_scalar(scalar: &Scalar, table: &FloatTable) -> (r: Vec<char>)
    ensures
        r@ == scalar_text(*scalar, table@),
{
    match &scalar.value {
        ScalarValue::String(value) => {
            let c = chars_of(value.as_str());
            if scalar.style == ScalarStyle::DoubleQuoted {
                let mut v: Vec<char> = Vec::new();
                v.push('"');
                let mut i: usize = 0;
                while i < c.len()
                    invariant
                        i <= c@.len(),
                        v@ == seq!['"'] + escaped(c@.take(i as int)),
                    decreases c@.len() - i,
                {
                    proof {
                        assert(c@.take(i + 1).drop_last() =~= c@.take(i as int));
                    }
                    push_escaped(&mut v, c[i]);
                    i = i + 1;
                    assert(v@ =~= seq!['"'] + escaped(c@.take(i as int)));
                }
                v.push('"');
                assert(c@.take(i as int) =~= c@);
                return v;
            }
            if c.len() == 0 || has_special(&c) {
                let mut v: Vec<char> = Vec::new();
                v.push('\'');
                let mut i: usize = 0;
                while i < c.len()
                    invariant
                        i <= c@.len(),
                        v@ == seq!['\''] + quotes_doubled(c@.take(i as int)),
                    decreases c@.len() - i,
                {
                    proof {
                        assert(c@.take(i + 1).drop_last() =~= c@.take(i as int));
                    }
                    if c[i] == '\'' {
                        push_text(&mut v, "''");
                    } else {
                        v.push(c[i]);
                    }
                    i = i + 1;
                    assert(v@ =~= seq!['\''] + quotes_doubled(c@.take(i as int)));
                }
                v.push('\'');
                assert(c@.take(i as int) =~= c@);
                return v;
            }
            c
        },
        ScalarValue::Null => chars_of("null"),
        ScalarValue::Bool(b) => if *b { chars_of("true") } else { chars_of("false") },
        ScalarValue::Int(i) => int_chars(*i),
        ScalarValue::Float(t) => shown_exec(table, t.as_str()),
        ScalarValue::Timestamp(v) => chars_of(v.as_str()),
    }
}

/// The anchor that the alias chain from `id` first reaches.
fn anchor_for(id: NodeId, document: &Document) -> (r: Option<String>)
    requires
        crate::document::aliases_below(document.nodes@),
    ensures
        match (r, anchor_spec(document.nodes@, id.0 as int)) {
            (Some(a), Some(b)) => a@ == b,
            (None, None) => true,
            _ => false,
        },
{
    let mut seen: Vec<NodeId> = Vec::new();
    let mut current = id;
    loop
        invariant
            crate::document::aliases_below(document.nodes@),
            anchor_spec(document.nodes@, id.0 as int) == anchor_spec(document.nodes@, current.0 as int),
            forall|k: int| 0 <= k < seen@.len() ==> (#[trigger] seen@[k]).0 > current.0,
        decreases current.0,
    {
        let mut k: usize = 0;
        let mut was_seen = false;
        while k < seen.len()
            invariant
                k <= seen@.len(),
                !was_seen,
                forall|j: int| 0 <= j < seen@.len() ==> (#[trigger] seen@[j]).0 > current.0,
            decreases seen@.len() - k,
        {
            if seen[k].0 == current.0 {
                was_seen = true;
                break;
            }
            k = k + 1;
        }
        if was_seen {
            return None;
        }
        seen.push(current);
        let node = match document.node(current) {
            Some(n) => n,
            None => {
                return None;
            },
        };
        if let Some(anchor) = &node.anchor {
            return Some(anchor.clone());
        }
        match &node.kind {
            NodeKind::Alias(target) => {
                proof {
                    assert(crate::document::aliases_below(document.nodes@));
                    assert(match document.nodes@[current.0 as int].kind {
                        NodeKind::Alias(t) => (t.0 as int) < current.0,
                        _ => true,
                    });
                }
                current = *target;
            },
            _ => {
                return None;
            },
        }
    }
}

fn alias_chars(target: NodeId, document: &Document) -> (r: Vec<char>)
    requires
        crate::document::aliases_below(document.nodes@),
    ensures
        r@ == alias_text(document.nodes@, target),
{
    let mut v: Vec<char> = Vec::new();
    v.push('*');
    match anchor_for(target, document) {
        Some(a) => push_text(&mut v, a.as_str()),
        None => push_text(&mut v, "<unknown>"),
    }
    v
}

/// Whether `node` is a mapping or sequence with at least one entry.
pub fn is_nonempty_collection(node: &NodeData) -> (r: bool)
    ensures
        r == nonempty_collection(node.kind),
{
    match &node.kind {
        NodeKind::Mapping(entries) => entries.len() > 0,
        NodeKind::Sequence(items) => items.len() > 0,
        _ => false,
    }
}

/// How a node that is not a non-empty collection prints inline: a scalar as itself, an empty
/// collection as `{}` or `[]`, an alias as `*anchor`.
pub fn render_inline(node: &NodeData, document: &Document, table: &FloatTable) -> (r: String)
    requires
        crate::document::aliases_below(document.nodes@),
    ensures
        r@ == inline_text(document.nodes@, *node, table@),
{
    let v = match &node.kind {
        NodeKind::Scalar(scalar) => render_scalar(scalar, table),
        NodeKind::Mapping(_) => chars_of("{}"),
        NodeKind::Sequence(_) => chars_of("[]"),
        NodeKind::Alias(target) => alias_chars(*target, document),
    };
    string_from_chars(v.as_slice())
}

pub(crate) fn push_spaces(v: &mut Vec<char>, n: usize)
    ensures
        final(v)@ == old(v)@ + spaces(n as nat),
{
    let mut i: usize = 0;
    while i < n
        invariant
            i <= n,
            v@ == old(v)@ + spaces(i as nat),
        decreases n - i,
    {
        v.push(' ');
        i = i + 1;
        assert(v@ =~= old(v)@ + spaces(i as nat));
    }
}


/// Appends node `id` in block style at `indent`.
fn render_node(id: NodeId, document: &Document, indent: usize, out: &mut Vec<char>, table: &FloatTable)
    requires
        document.wf(),
        indent + 2 * (id.0 as int) <= usize::MAX,
    ensures
        final(out)@ == old(out)@ + block_text(document.nodes@, id.0 as int, indent as nat, table@),
    decreases id.0,
{
    let ghost nodes = document.nodes@;
    proof {
        crate::document::lemma_arena_aliases(nodes);
    }
    let node = match document.node(id) {
        Some(n) => n,
        None => {
            assert(old(out)@ + block_text(nodes, id.0 as int, indent as nat, table@) =~= old(out)@);
            return;
        },
    };
    proof {
        assert(arena_ok(nodes));
        assert(nodes[id.0 as int].id.0 == id.0);
    }
    let ghost start = out@;
    let ghost prefix = spaces(indent as nat);
    match &node.kind {
        NodeKind::Scalar(scalar) => {
            if scalar.style == ScalarStyle::BlockLiteral || scalar.style == ScalarStyle::BlockChomped {
                push_spaces(out, indent);
                if scalar.style == ScalarStyle::BlockLiteral {
                    push_text(out, "|");
                } else {
                    push_text(out, ">");
                }
                out.push('\n');
                let ghost head = out@;
                let lines = lines_of(scalar.raw.as_str());
                let ghost ls = pieces(lines@);
                let mut k: usize = 0;
                while k < lines.len()
                    invariant
                        k <= lines@.len(),
                        ls == pieces(lines@),
                        out@ == head + block_lines(ls.take(k as int), prefix),
                        prefix == spaces(indent as nat),
                    decreases lines@.len() - k,
                {
                    proof {
                        assert(ls.take(k + 1).drop_last() =~= ls.take(k as int));
                        assert(ls.take(k + 1).last() == lines@[k as int]@);
                    }
                    push_spaces(out, indent);
                    out.push(' ');
                    push_chars(out, &lines[k]);
                    out.push('\n');
                    k = k + 1;
                    assert(out@ =~= head + block_lines(ls.take(k as int), prefix));
                }
                proof {
                    assert(ls.take(k as int) =~= ls);
                    assert(out@ =~= start + block_text(nodes, id.0 as int, indent as nat, table@));
                }
                return;
            }
            push_spaces(out, indent);
            let t = render_scalar(scalar, table);
            push_chars(out, &t);
            out.push('\n');
            assert(out@ =~= start + block_text(nodes, id.0 as int, indent as nat, table@));
        },
        NodeKind::Mapping(entries) => {
            if entries.len() == 0 {
                push_spaces(out, indent);
                push_text(out, "{}\n");
                assert(out@ =~= start + block_text(nodes, id.0 as int, indent as nat, table@));
                return;
            }
            let mut k: usize = 0;
            while k < entries.len()
                invariant
                    document.wf(),
                    nodes == document.nodes@,
                    (id.0 as int) < nodes.len(),
                    nodes[id.0 as int].kind == NodeKind::Mapping(*entries),
                    indent + 2 * (id.0 as int) <= usize::MAX,
                    k <= entries@.len(),
                    out@ == start + entries_text(nodes, entries@.take(k as int), id.0 as int, indent as nat, table@),
                decreases entries@.len() - k,
            {
                proof {
                    crate::document::lemma_entry_below(nodes, id.0 as int, k as int);
                    assert(entries@.take(k + 1).drop_last() =~= entries@.take(k as int));
                    assert(entries@.take(k + 1).last() == entries@[k as int]);
                }
                let (key_id, value_id) = entries[k];
                let key = match document.node(key_id) {
                    Some(kn) => match &kn.kind {
                        NodeKind::Scalar(s) => render_scalar(s, table),
                        _ => Vec::new(),
                    },
                    None => Vec::new(),
                };
                assert(key@ =~= key_text(nodes, key_id, table@));
                match document.node(value_id) {
                    None => {
                        push_spaces(out, indent);
                        push_chars(out, &key);
                        push_text(out, ":\n");
                    },
                    Some(value) => {
                        if is_nonempty_collection(value) {
                            push_spaces(out, indent);
                            push_chars(out, &key);
                            push_text(out, ":\n");
                            render_node(value_id, document, indent + 2, out, table);
                        } else {
                            push_spaces(out, indent);
                            push_chars(out, &key);
                            push_text(out, ": ");
                            let inline = render_inline(value, document, table);
                            push_text(out, inline.as_str());
                            out.push('\n');
                        }
                    },
                }
                k = k + 1;
                assert(out@ =~= start + entries_text(nodes, entries@.take(k as int), id.0 as int, indent as nat, table@));
            }
            proof {
                assert(entries@.take(k as int) =~= entries@);
            }
        },
        NodeKind::Sequence(items) => {
            if items.len() == 0 {
                push_spaces(out, indent);
                push_text(out, "[]\n");
                assert(out@ =~= start + block_text(nodes, id.0 as int, indent as nat, table@));
                return;
            }
            let mut k: usize = 0;
            while k < items.len()
                invariant
                    document.wf(),
                    nodes == document.nodes@,
                    (id.0 as int) < nodes.len(),
                    nodes[id.0 as int].kind == NodeKind::Sequence(*items),
                    indent + 2 * (id.0 as int) <= usize::MAX,
                    k <= items@.len(),
                    out@ == start + items_text(nodes, items@.take(k as int), id.0 as int, indent as nat, table@),
                decreases items@.len() - k,
            {
                proof {
                    crate::document::lemma_item_below(nodes, id.0 as int, k as int);
                    assert(items@.take(k + 1).drop_last() =~= items@.take(k as int));
                    assert(items@.take(k + 1).last() == items@[k as int]);
                }
                let item = items[k];
                match document.node(item) {
                    None => {},
                    Some(item_node) => {
                        if is_nonempty_collection(item_node) {
                            push_spaces(out, indent);
                            push_text(out, "-\n");
                            render_node(item, document, indent + 2, out, table);
                        } else {
                            push_spaces(out, indent);
                            push_text(out, "- ");
                            let inline = render_inline(item_node, document, table);
                            push_text(out, inline.as_str());
                            out.push('\n');
                        }
                    },
                }
                k = k + 1;
                assert(out@ =~= start + items_text(nodes, items@.take(k as int), id.0 as int, indent as nat, table@));
            }
            proof {
                assert(items@.take(k as int) =~= items@);
            }
        },
        NodeKind::Alias(target) => {
            push_spaces(out, indent);
            let a = alias_chars(*target, document);
            push_chars(out, &a);
            out.push('\n');
            assert(out@ =~= start + block_text(nodes, id.0 as int, indent as nat, table@));
        },
    }
}

/// Renders `root` in canonical block YAML, floats printing as `table` says.
pub fn pretty_print_with(root: NodeId, document: &Document, table: &FloatTable) -> (r: String)
    requires
        document.wf(),
        2 * (root.0 as int) <= usize::MAX,
    ensures
        r@ == pretty_text(document.nodes@, root, table@),
{
    let mut out: Vec<char> = Vec::new();
    render_node(root, document, 0, &mut out, table);
    assert(out@ =~= block_text(document.nodes@, root.0 as int, 0, table@));
    if !(out.len() > 0 && out[out.len() - 1] == '\n') {
        out.push('\n');
    }
    string_from_chars(out.as_slice())
}

/// Renders `root` in canonical block YAML; `floats` says how each float prints.
pub fn pretty_print<F: FloatDisplay>(root: NodeId, document: &Document, floats: &F) -> (r: String)
    requires
        document.wf(),
        2 * (root.0 as int) <= usize::MAX,
    ensures
        exists|table: Seq<(Seq<char>, Seq<char>)>| {
            &&& r@ == pretty_text(document.nodes@, root, table)
            &&& forall|k: int, t: Seq<char>| #[trigger] float_at(document.nodes@, k, t) ==> exists|i: int|
                0 <= i < table.len() && #[trigger] table[i].0 == t
            &&& forall|i: int| 0 <= i < table.len() ==> float_text_of(document.nodes@, #[trigger] table[i].0)
        },
{
    let table = float_table(document, floats);
    pretty_print_with(root, document, &table)
}

/// A string that is not double-quoted and holds a character YAML gives a meaning to in a plain
/// scalar (`:` and `#` for mapping values and comments, brackets, braces and `,` for flow
/// collections, `&` `*` `!` for anchors, aliases and tags, `|` `>` for block scalars, quotes,
/// `%`, `@`, the backquote) or whitespace is printed single-quoted (its quotes doubled), so
/// that reading the text back gives the string and not a comment, a mapping or another node.
pub proof fn indicator_strings_are_quoted(sc: Scalar, table: Seq<(Seq<char>, Seq<char>)>, i: int)
    requires
        sc.value is String,
        sc.style != ScalarStyle::DoubleQuoted,
        0 <= i < sc.value->String_0@.len(),
        ({
            let c = sc.value->String_0@[i];
            c == ':' || c == ' ' || c == '#' || c == '[' || c == ']' || c == '{' || c == '}' || c == ','
                || c == '&' || c == '*' || c == '!' || c == '|' || c == '>' || c == '\'' || c == '"'
                || c == '%' || c == '@' || c == '`' || unicode_whitespace(c)
        }),
    ensures
        scalar_text(sc, table) == seq!['\''] + quotes_doubled(sc.value->String_0@) + seq!['\''],
{
    let v = sc.value->String_0@;
    let c = v[i];
    let lit = ": #[]{},&*!|>'\"%@`"@;
    reveal_strlit(": #[]{},&*!|>'\"%@`");
    if !unicode_whitespace(c) {
        assert(lit[0] == ':' && lit[1] == ' ' && lit[2] == '#' && lit[3] == '[' && lit[4] == ']');
        assert(lit[5] == '{' && lit[6] == '}' && lit[7] == ',' && lit[8] == '&' && lit[9] == '*');
        assert(lit[10] == '!' && lit[11] == '|' && lit[12] == '>' && lit[13] == '\'' && lit[14] == '"');
        assert(lit[15] == '%' && lit[16] == '@' && lit[17] == '`');
        assert(lit.contains(c));
    }
    assert(special_char(v[i]));
}

/// A null prints as `null`, booleans as `true` and `false`, and an empty string that is not
/// double-quoted as `''`, so that each reads back as the same value.
pub proof fn keyword_values_print_as_keywords(sc: Scalar, table: Seq<(Seq<char>, Seq<char>)>)
    ensures
        sc.value is Null ==> scalar_text(sc, table) == seq!['n', 'u', 'l', 'l'],
        sc.value matches ScalarValue::Bool(b) ==> scalar_text(sc, table) == if b {
            seq!['t', 'r', 'u', 'e']
        } else {
            seq!['f', 'a', 'l', 's', 'e']
        },
        (sc.value matches ScalarValue::String(v) && v@.len() == 0 && sc.style != ScalarStyle::DoubleQuoted)
            ==> scalar_text(sc, table) == seq!['\'', '\''],
{
    reveal_strlit("null");
    reveal_strlit("true");
    reveal_strlit("false");
    assert("null"@ =~= seq!['n', 'u', 'l', 'l']);
    assert("true"@ =~= seq!['t', 'r', 'u', 'e']);
    assert("false"@ =~= seq!['f', 'a', 'l', 's', 'e']);
    if sc.value is String {
        let v = sc.value->String_0;
        if v@.len() == 0 {
            assert(quotes_doubled(v@) =~= Seq::<char>::empty());
        }
    }
}

/// A document whose root is a plain or single-quoted string holding an indicator character or
/// whitespace pretty-prints as that string single-quoted on one line.
pub proof fn quoted_root_string(nodes: Seq<NodeData>, root: NodeId, table: Seq<(Seq<char>, Seq<char>)>, i: int)
    requires
        (root.0 as int) < nodes.len(),
        nodes[root.0 as int].kind is Scalar,
        ({
            let sc = nodes[root.0 as int].kind->Scalar_0;
            &&& sc.value is String
            &&& sc.style == ScalarStyle::Plain || sc.style == ScalarStyle::SingleQuoted
            &&& 0 <= i < sc.value->String_0@.len()
            &&& ({
                let c = sc.value->String_0@[i];
                c == ':' || c == ' ' || c == '#' || c == '[' || c == ']' || c == '{' || c == '}' || c == ','
                    || c == '&' || c == '*' || c == '!' || c == '|' || c == '>' || c == '\'' || c == '"'
                    || c == '%' || c == '@' || c == '`' || unicode_whitespace(c)
            })
        }),
    ensures
        pretty_text(nodes, root, table) == seq!['\''] + quotes_doubled(nodes[root.0 as int].kind->Scalar_0.value->String_0@)
            + seq!['\'', '\n'],
{
    let sc = nodes[root.0 as int].kind->Scalar_0;
    indicator_strings_are_quoted(sc, table, i);
    assert(spaces(0) =~= Seq::<char>::empty());
    let b = block_text(nodes, root.0 as int, 0, table);
    assert(b =~= seq!['\''] + quotes_doubled(sc.value->String_0@) + seq!['\'', '\n']);
}

} // verus!
