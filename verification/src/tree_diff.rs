//! A structural diff of two documents by dotted path: values that changed, entries and items
//! that one side has and the other lacks.
use vstd::prelude::*;
use crate::diff::strings_view;
use crate::document::{arena_ok, refs_below, Document, NodeData, NodeKind};
use crate::edit::{keys_model, path_text, path_to_string, Key, KeyModel};
use crate::edit_path::{first_named, key_named};
use crate::node::{NodeId, ScalarValue};
use crate::pretty::{shown, FloatTable};
use crate::text::{chars_of, decimal_chars, decimal_text, push_chars, push_text, same_chars, same_text, string_from_chars};

verus! {

/// The most alias hops followed before giving up on a chain.
pub open spec fn hop_limit() -> nat {
    256
}

/// The node an alias chain from `id` ends at, having taken `hops` hops already; after the
/// hop limit the chain is cut short.
pub open spec fn deref_spec(nodes: Seq<NodeData>, id: NodeId, hops: nat) -> NodeId
    decreases hop_limit() + 1 - hops,
{
    if hops <= hop_limit() && (id.0 as int) < nodes.len() {
        match nodes[id.0 as int].kind {
            NodeKind::Alias(t) => if hops + 1 > hop_limit() {
                t
            } else {
                deref_spec(nodes, t, hops + 1)
            },
            _ => id,
        }
    } else {
        id
    }
}

/// How a scalar shows in a diff line: as written, a null written as nothing as `null`.
pub open spec fn scalar_display(value: ScalarValue, raw: Seq<char>) -> Seq<char> {
    if value is Null && raw.len() == 0 {
        "null"@
    } else {
        raw
    }
}

/// A one-line description of node `id`: a scalar as it shows, a collection by its size.
pub open spec fn describe_spec(nodes: Seq<NodeData>, id: NodeId) -> Seq<char> {
    if (id.0 as int) < nodes.len() {
        match nodes[id.0 as int].kind {
            NodeKind::Scalar(s) => scalar_display(s.value, s.raw@),
            NodeKind::Sequence(items) => "[sequence, "@ + decimal_text(items@.len()) + " items]"@,
            NodeKind::Mapping(entries) => "{mapping, "@ + decimal_text(entries@.len()) + " entries}"@,
            NodeKind::Alias(_) => "*alias"@,
        }
    } else {
        "<missing>"@
    }
}

/// A float's double, told by how it displays: the same unless NaN, and both zeros alike.
pub open spec fn doubles_equal(x: Seq<char>, y: Seq<char>) -> bool {
    &&& x != "NaN"@
    &&& (x == y || ((x == "0"@ || x == "-0"@) && (y == "0"@ || y == "-0"@)))
}

/// Whether two scalar values are equal, floats compared as the doubles their tables display.
pub open spec fn values_same(
    a: ScalarValue,
    b: ScalarValue,
    ta: Seq<(Seq<char>, Seq<char>)>,
    tb: Seq<(Seq<char>, Seq<char>)>,
) -> bool {
    match (a, b) {
        (ScalarValue::Null, ScalarValue::Null) => true,
        (ScalarValue::Bool(x), ScalarValue::Bool(y)) => x == y,
        (ScalarValue::Int(x), ScalarValue::Int(y)) => x == y,
        (ScalarValue::Float(x), ScalarValue::Float(y)) => doubles_equal(shown(ta, x@), shown(tb, y@)),
        (ScalarValue::String(x), ScalarValue::String(y)) => x@ == y@,
        (ScalarValue::Timestamp(x), ScalarValue::Timestamp(y)) => x@ == y@,
        _ => false,
    }
}

/// The spelling of a mapping key that is a scalar.
pub open spec fn key_name(nodes: Seq<NodeData>, id: NodeId) -> Option<Seq<char>> {
    if (id.0 as int) < nodes.len() {
        match nodes[id.0 as int].kind {
            NodeKind::Scalar(s) => Some(s.raw@),
            _ => None,
        }
    } else {
        None
    }
}

/// `marker`, a space, the path, `: ` and `text`.
pub open spec fn entry_line(marker: char, path: Seq<KeyModel>, text: Seq<char>) -> Seq<char> {
    seq![marker, ' '] + path_text(path) + ": "@ + text
}

/// `~ path: before -> after`.
pub open spec fn change_line(path: Seq<KeyModel>, before: Seq<char>, after: Seq<char>) -> Seq<char> {
    "~ "@ + path_text(path) + ": "@ + before + " -> "@ + after
}

/// The two sides compared after following aliases, or `None` when either node is missing (or,
/// outside a well-formed arena, an alias leads up).
pub open spec fn compared(na: Seq<NodeData>, ia: NodeId, nb: Seq<NodeData>, ib: NodeId) -> Option<(NodeId, NodeId)> {
    let a = deref_spec(na, ia, 0);
    let b = deref_spec(nb, ib, 0);
    if (a.0 as int) < na.len() && (b.0 as int) < nb.len() && a.0 <= ia.0 {
        Some((a, b))
    } else {
        None
    }
}

/// The differences below nodes `ia` of `na` and `ib` of `nb`, at `path`: for two scalars a
/// change when their values differ; for two sequences the differences of the items both have,
/// then the items only the first has as removed and only the second has as added; for two
/// mappings, for each entry of the first in order, the differences with the second's first
/// entry of the same key or the entry as removed, then each entry only the second has as added;
/// for anything else a change of one description to the other.
pub open spec fn diff_spec(
    na: Seq<NodeData>,
    ia: NodeId,
    nb: Seq<NodeData>,
    ib: NodeId,
    path: Seq<KeyModel>,
    ta: Seq<(Seq<char>, Seq<char>)>,
    tb: Seq<(Seq<char>, Seq<char>)>,
) -> Seq<Seq<char>>
    decreases ia.0, 1int, 0int,
{
    match compared(na, ia, nb, ib) {
        None => Seq::empty(),
        Some((a, b)) => match (na[a.0 as int].kind, nb[b.0 as int].kind) {
            (NodeKind::Scalar(x), NodeKind::Scalar(y)) => if values_same(x.value, y.value, ta, tb) {
                Seq::empty()
            } else {
                seq![change_line(path, scalar_display(x.value, x.raw@), scalar_display(y.value, y.raw@))]
            },
            (NodeKind::Sequence(xs), NodeKind::Sequence(ys)) => {
                let common = if xs@.len() <= ys@.len() { xs@.len() } else { ys@.len() };
                items_diff(na, xs@, nb, ys@, a, path, ta, tb, common as int) + extra_items(
                    na,
                    xs@,
                    path,
                    common as int,
                    '-',
                ) + extra_items(nb, ys@, path, common as int, '+')
            },
            (NodeKind::Mapping(xs), NodeKind::Mapping(ys)) => entries_diff(na, xs@, nb, ys@, a, path, ta, tb)
                + added_entries(na, xs@, nb, ys@, path),
            _ => seq![change_line(path, describe_spec(na, a), describe_spec(nb, b))],
        },
    }
}

/// The differences of the first `k` item pairs, each at its index below `path`, following only
/// items below `bound`.
pub open spec fn items_diff(
    na: Seq<NodeData>,
    xs: Seq<NodeId>,
    nb: Seq<NodeData>,
    ys: Seq<NodeId>,
    bound: NodeId,
    path: Seq<KeyModel>,
    ta: Seq<(Seq<char>, Seq<char>)>,
    tb: Seq<(Seq<char>, Seq<char>)>,
    k: int,
) -> Seq<Seq<char>>
    decreases bound.0, 0int, k,
{
    if k <= 0 {
        Seq::empty()
    } else {
        let i = k - 1;
        items_diff(na, xs, nb, ys, bound, path, ta, tb, i) + if xs[i].0 < bound.0 {
            diff_spec(na, xs[i], nb, ys[i], path.push(KeyModel::Index(i as nat)), ta, tb)
        } else {
            Seq::empty()
        }
    }
}

/// One line for each item from position `from` on, marked `marker`, with its description.
pub open spec fn extra_items(nodes: Seq<NodeData>, items: Seq<NodeId>, path: Seq<KeyModel>, from: int, marker: char) -> Seq<Seq<char>> {
    Seq::new(
        (items.len() - from) as nat,
        |j: int| entry_line(marker, path.push(KeyModel::Index((from + j) as nat)), describe_spec(nodes, items[from + j])),
    )
}

/// For each entry of `xs` with a scalar key, in order: the differences with the first entry of
/// `ys` spelled alike, or the entry as removed when there is none.
pub open spec fn entries_diff(
    na: Seq<NodeData>,
    xs: Seq<(NodeId, NodeId)>,
    nb: Seq<NodeData>,
    ys: Seq<(NodeId, NodeId)>,
    bound: NodeId,
    path: Seq<KeyModel>,
    ta: Seq<(Seq<char>, Seq<char>)>,
    tb: Seq<(Seq<char>, Seq<char>)>,
) -> Seq<Seq<char>>
    decreases bound.0, 0int, xs.len(),
{
    if xs.len() == 0 {
        Seq::empty()
    } else {
        let (k, v) = xs.last();
        let rest = entries_diff(na, xs.drop_last(), nb, ys, bound, path, ta, tb);
        match key_name(na, k) {
            None => rest,
            Some(name) => rest + match first_named(nb, ys, name) {
                Some(j) => if v.0 < bound.0 {
                    diff_spec(na, v, nb, ys[j].1, path.push(KeyModel::Field(name)), ta, tb)
                } else {
                    Seq::empty()
                },
                None => seq![entry_line('-', path.push(KeyModel::Field(name)), describe_spec(na, v))],
            },
        }
    }
}

/// For each entry of `ys` with a scalar key that no entry of `xs` is spelled like, in order,
/// the entry as added.
pub open spec fn added_entries(
    na: Seq<NodeData>,
    xs: Seq<(NodeId, NodeId)>,
    nb: Seq<NodeData>,
    ys: Seq<(NodeId, NodeId)>,
    path: Seq<KeyModel>,
) -> Seq<Seq<char>>
    decreases ys.len(),
{
    if ys.len() == 0 {
        Seq::empty()
    } else {
        let (k, v) = ys.last();
        let rest = added_entries(na, xs, nb, ys.drop_last(), path);
        match key_name(nb, k) {
            Some(name) => if first_named(na, xs, name) is None {
                rest.push(entry_line('+', path.push(KeyModel::Field(name)), describe_spec(nb, v)))
            } else {
                rest
            },
            None => rest,
        }
    }
}

/// In a well-formed arena an alias chain never leads up.
proof fn lemma_deref_below(nodes: Seq<NodeData>, id: NodeId, hops: nat)
    requires
        arena_ok(nodes),
    ensures
        deref_spec(nodes, id, hops).0 <= id.0,
    decreases hop_limit() + 1 - hops,
{
    if hops <= hop_limit() && (id.0 as int) < nodes.len() {
        if let NodeKind::Alias(t) = nodes[id.0 as int].kind {
            assert(refs_below(nodes[id.0 as int].kind, id.0 as int));
            if hops + 1 <= hop_limit() {
                lemma_deref_below(nodes, t, hops + 1);
            }
        }
    }
}

/// Follows an alias chain from `id` to the node it ends at, at most [`hop_limit`] hops.
fn deref_alias(document: &Document, id: NodeId) -> (r: NodeId)
    ensures
        r == deref_spec(document.nodes@, id, 0),
{
    let mut current = id;
    let mut hops: usize = 0;
    let mut done = false;
    while !done
        invariant
            hops <= 257,
            !done ==> hops <= 256,
            done ==> deref_spec(document.nodes@, id, 0) == current,
            !done ==> deref_spec(document.nodes@, id, 0) == deref_spec(document.nodes@, current, hops as nat),
        decreases 258 - hops, if done { 0int } else { 1int },
    {
        match document.node(current) {
            Some(node) => match &node.kind {
                NodeKind::Alias(target) => {
                    current = *target;
                    hops = hops + 1;
                    if hops > 256 {
                        done = true;
                    }
                },
                _ => {
                    done = true;
                },
            },
            None => {
                done = true;
            },
        }
    }
    current
}

fn scalar_display_chars(value: &ScalarValue, raw: &String) -> (r: Vec<char>)
    ensures
        r@ == scalar_display(*value, raw@),
{
    match value {
        ScalarValue::Null => {
            if raw.as_str().unicode_len() == 0 {
                proof {
                    reveal_strlit("null");
                }
                return chars_of("null");
            }
        },
        _ => {},
    }
    chars_of(raw.as_str())
}

/// A one-line description of node `id`.
fn describe(document: &Document, id: NodeId) -> (r: Vec<char>)
    ensures
        r@ == describe_spec(document.nodes@, id),
{
    match document.node(id) {
        Some(node) => match &node.kind {
            NodeKind::Scalar(s) => scalar_display_chars(&s.value, &s.raw),
            NodeKind::Sequence(items) => {
                let mut v = chars_of("[sequence, ");
                push_chars(&mut v, &decimal_chars(items.len()));
                push_text(&mut v, " items]");
                proof {
                    reveal_strlit("[sequence, ");
                    reveal_strlit(" items]");
                }
                v
            },
            NodeKind::Mapping(entries) => {
                let mut v = chars_of("{mapping, ");
                push_chars(&mut v, &decimal_chars(entries.len()));
                push_text(&mut v, " entries}");
                proof {
                    reveal_strlit("{mapping, ");
                    reveal_strlit(" entries}");
                }
                v
            },
            NodeKind::Alias(_) => {
                proof {
                    reveal_strlit("*alias");
                }
                chars_of("*alias")
            },
        },
        None => {
            proof {
                reveal_strlit("<missing>");
            }
            chars_of("<missing>")
        },
    }
}

fn is_zero_text(d: &Vec<char>) -> (r: bool)
    ensures
        r == (d@ == "0"@ || d@ == "-0"@),
{
    let r = (d.len() == 1 && d[0] == '0') || (d.len() == 2 && d[0] == '-' && d[1] == '0');
    proof {
        reveal_strlit("0");
        reveal_strlit("-0");
        if r {
            if d.len() == 1 {
                assert(d@ =~= "0"@);
            } else {
                assert(d@ =~= "-0"@);
            }
        }
        if d@ == "0"@ {
            assert(d@[0] == '0');
        }
        if d@ == "-0"@ {
            assert(d@[0] == '-' && d@[1] == '0');
        }
    }
    r
}

fn doubles_equal_exec(x: &Vec<char>, y: &Vec<char>) -> (r: bool)
    ensures
        r == doubles_equal(x@, y@),
{
    proof {
        reveal_strlit("NaN");
    }
    let nan = x.len() == 3 && x[0] == 'N' && x[1] == 'a' && x[2] == 'N';
    proof {
        if x@ == "NaN"@ {
            assert(x@[0] == 'N' && x@[1] == 'a' && x@[2] == 'N');
        }
        if nan {
            assert(x@ =~= "NaN"@);
        }
    }
    !nan && (same_chars(x, y) || (is_zero_text(x) && is_zero_text(y)))
}

/// Whether two scalar values are equal, floats compared as the doubles their tables display.
fn values_same_exec(a: &ScalarValue, b: &ScalarValue, ta: &FloatTable, tb: &FloatTable) -> (r: bool)
    ensures
        r == values_same(*a, *b, ta@, tb@),
{
    match (a, b) {
        (ScalarValue::Null, ScalarValue::Null) => true,
        (ScalarValue::Bool(x), ScalarValue::Bool(y)) => *x == *y,
        (ScalarValue::Int(x), ScalarValue::Int(y)) => *x == *y,
        (ScalarValue::Float(x), ScalarValue::Float(y)) => {
            let dx = crate::pretty::shown_exec(ta, x.as_str());
            let dy = crate::pretty::shown_exec(tb, y.as_str());
            doubles_equal_exec(&dx, &dy)
        },
        (ScalarValue::String(x), ScalarValue::String(y)) => same_text(x.as_str(), y.as_str()),
        (ScalarValue::Timestamp(x), ScalarValue::Timestamp(y)) => same_text(x.as_str(), y.as_str()),
        _ => false,
    }
}

/// The position of the first entry whose key is a scalar spelled `name`.
fn find_named(document: &Document, entries: &Vec<(NodeId, NodeId)>, name: &str) -> (r: Option<usize>)
    ensures
        match (r, first_named(document.nodes@, entries@, name@)) {
            (Some(i), Some(j)) => i as int == j,
            (None, None) => true,
            _ => false,
        },
{
    let ghost nodes = document.nodes@;
    let mut i: usize = 0;
    assert(entries@.skip(0) =~= entries@);
    while i < entries.len()
        invariant
            i <= entries@.len(),
            nodes == document.nodes@,
            first_named(nodes, entries@, name@) == shifted(first_named(nodes, entries@.skip(i as int), name@), i as int),
        decreases entries@.len() - i,
    {
        proof {
            assert(entries@.skip(i as int).drop_first() =~= entries@.skip(i + 1));
            assert(entries@.skip(i as int)[0] == entries@[i as int]);
        }
        let matches = match document.node(entries[i].0) {
            Some(n) => match &n.kind {
                NodeKind::Scalar(sc) => same_text(sc.raw.as_str(), name),
                _ => false,
            },
            None => false,
        };
        if matches {
            return Some(i);
        }
        i = i + 1;
    }
    None
}

spec fn shifted(p: Option<int>, by: int) -> Option<int> {
    match p {
        Some(i) => Some(i + by),
        None => None,
    }
}

/// `marker`, a space, the path, `: ` and `text`, as a string.
fn entry_line_exec(marker: char, path: &Vec<Key>, text: &Vec<char>) -> (r: String)
    ensures
        r@ == entry_line(marker, keys_model(path@), text@),
{
    let mut v: Vec<char> = Vec::new();
    v.push(marker);
    v.push(' ');
    let p = path_to_string(path.as_slice());
    push_text(&mut v, p.as_str());
    push_text(&mut v, ": ");
    push_chars(&mut v, text);
    proof {
        reveal_strlit(": ");
        assert(v@ =~= entry_line(marker, keys_model(path@), text@));
    }
    string_from_chars(v.as_slice())
}

/// `~ path: before -> after`, as a string.
fn change_line_exec(path: &Vec<Key>, before: &Vec<char>, after: &Vec<char>) -> (r: String)
    ensures
        r@ == change_line(keys_model(path@), before@, after@),
{
    let mut v: Vec<char> = chars_of("~ ");
    let p = path_to_string(path.as_slice());
    push_text(&mut v, p.as_str());
    push_text(&mut v, ": ");
    push_chars(&mut v, before);
    push_text(&mut v, " -> ");
    push_chars(&mut v, after);
    proof {
        reveal_strlit("~ ");
        reveal_strlit(": ");
        reveal_strlit(" -> ");
        assert(v@ =~= change_line(keys_model(path@), before@, after@));
    }
    string_from_chars(v.as_slice())
}

proof fn lemma_keys_push(path: Seq<Key>, k: Key)
    ensures
        keys_model(path.push(k)) == keys_model(path).push(k@),
{
    assert(keys_model(path.push(k)) =~= keys_model(path).push(k@));
}

/// Appends the differences below `id_a` of `doc_a` and `id_b` of `doc_b` at `path` to `out`,
/// floats compared as the doubles `ta` and `tb` display: a change of value, entries and items
/// removed or added, or a change of kind.
pub fn diff_nodes(
    doc_a: &Document,
    id_a: NodeId,
    doc_b: &Document,
    id_b: NodeId,
    path: &mut Vec<Key>,
    out: &mut Vec<String>,
    ta: &FloatTable,
    tb: &FloatTable,
)
    requires
        doc_a.wf(),
    ensures
        final(path)@ == old(path)@,
        strings_view(final(out)@) == strings_view(old(out)@) + diff_spec(
            doc_a.nodes@,
            id_a,
            doc_b.nodes@,
            id_b,
            keys_model(old(path)@),
            ta@,
            tb@,
        ),
    decreases id_a.0,
{
    let ghost na = doc_a.nodes@;
    let ghost nb = doc_b.nodes@;
    let ghost p = keys_model(path@);
    let ghost path0 = path@;
    let ghost start = strings_view(out@);
    let a = deref_alias(doc_a, id_a);
    let b = deref_alias(doc_b, id_b);
    proof {
        lemma_deref_below(na, id_a, 0);
    }
    let (node_a, node_b) = match (doc_a.node(a), doc_b.node(b)) {
        (Some(x), Some(y)) => (x, y),
        _ => {
            assert(strings_view(out@) =~= start + Seq::<Seq<char>>::empty());
            return;
        },
    };
    proof {
        assert(arena_ok(na));
        assert(refs_below(na[a.0 as int].kind, a.0 as int));
    }
    match (&node_a.kind, &node_b.kind) {
        (NodeKind::Scalar(x), NodeKind::Scalar(y)) => {
            if !values_same_exec(&x.value, &y.value, ta, tb) {
                let before = scalar_display_chars(&x.value, &x.raw);
                let after = scalar_display_chars(&y.value, &y.raw);
                let line = change_line_exec(path, &before, &after);
                out.push(line);
            }
            assert(strings_view(out@) =~= start + diff_spec(na, id_a, nb, id_b, p, ta@, tb@));
        },
        (NodeKind::Sequence(xs), NodeKind::Sequence(ys)) => {
            let common = if xs.len() <= ys.len() { xs.len() } else { ys.len() };
            let mut i: usize = 0;
            while i < common
                invariant
                    doc_a.wf(),
                    na == doc_a.nodes@,
                    nb == doc_b.nodes@,
                    (a.0 as int) < na.len(),
                    a.0 <= id_a.0,
                    na[a.0 as int].kind == NodeKind::Sequence(*xs),
                    common <= xs@.len(),
                    common <= ys@.len(),
                    i <= common,
                    path@ == path0,
                    p == keys_model(path0),
                    strings_view(out@) == start + items_diff(na, xs@, nb, ys@, a, p, ta@, tb@, i as int),
                decreases common - i,
            {
                proof {
                    crate::document::lemma_item_below(na, a.0 as int, i as int);
                    assert(xs@[i as int].0 < a.0);
                    lemma_keys_push(path@, Key::Index(i));
                }
                path.push(Key::Index(i));
                diff_nodes(doc_a, xs[i], doc_b, ys[i], path, out, ta, tb);
                let _ = path.pop();
                i = i + 1;
                assert(strings_view(out@) =~= start + items_diff(na, xs@, nb, ys@, a, p, ta@, tb@, i as int));
            }
            let ghost mid = strings_view(out@);
            let mut j: usize = common;
            while j < xs.len()
                invariant
                    na == doc_a.nodes@,
                    common <= j <= xs@.len(),
                    path@ == path0,
                    p == keys_model(path0),
                    strings_view(out@) == mid + extra_items(na, xs@, p, common as int, '-').take(j - common),
                decreases xs@.len() - j,
            {
                proof {
                    lemma_keys_push(path@, Key::Index(j));
                }
                path.push(Key::Index(j));
                let d = describe(doc_a, xs[j]);
                let line = entry_line_exec('-', path, &d);
                proof {
                    let e = extra_items(na, xs@, p, common as int, '-');
                    assert(e[j - common] == line@);
                    assert(e.take(j + 1 - common) =~= e.take(j - common).push(e[j - common]));
                }
                let ghost before = strings_view(out@);
                out.push(line);
                assert(strings_view(out@) =~= before.push(line@));
                let _ = path.pop();
                j = j + 1;
                assert(strings_view(out@) =~= mid + extra_items(na, xs@, p, common as int, '-').take(j - common));
            }
            let ghost mid2 = strings_view(out@);
            let mut j: usize = common;
            while j < ys.len()
                invariant
                    nb == doc_b.nodes@,
                    common <= j <= ys@.len(),
                    path@ == path0,
                    p == keys_model(path0),
                    strings_view(out@) == mid2 + extra_items(nb, ys@, p, common as int, '+').take(j - common),
                decreases ys@.len() - j,
            {
                proof {
                    lemma_keys_push(path@, Key::Index(j));
                }
                path.push(Key::Index(j));
                let d = describe(doc_b, ys[j]);
                let line = entry_line_exec('+', path, &d);
                proof {
                    let e = extra_items(nb, ys@, p, common as int, '+');
                    assert(e[j - common] == line@);
                    assert(e.take(j + 1 - common) =~= e.take(j - common).push(e[j - common]));
                }
                let ghost before = strings_view(out@);
                out.push(line);
                assert(strings_view(out@) =~= before.push(line@));
                let _ = path.pop();
                j = j + 1;
                assert(strings_view(out@) =~= mid2 + extra_items(nb, ys@, p, common as int, '+').take(j - common));
            }
            proof {
                assert(extra_items(na, xs@, p, common as int, '-').take(xs@.len() - common) =~= extra_items(na, xs@, p, common as int, '-'));
                assert(extra_items(nb, ys@, p, common as int, '+').take(ys@.len() - common) =~= extra_items(nb, ys@, p, common as int, '+'));
                assert(strings_view(out@) =~= start + diff_spec(na, id_a, nb, id_b, p, ta@, tb@));
            }
        },
        (NodeKind::Mapping(xs), NodeKind::Mapping(ys)) => {
            let mut k: usize = 0;
            assert(xs@.take(0) =~= Seq::<(NodeId, NodeId)>::empty());
            while k < xs.len()
                invariant
                    doc_a.wf(),
                    na == doc_a.nodes@,
                    nb == doc_b.nodes@,
                    (a.0 as int) < na.len(),
                    a.0 <= id_a.0,
                    na[a.0 as int].kind == NodeKind::Mapping(*xs),
                    k <= xs@.len(),
                    path@ == path0,
                    p == keys_model(path0),
                    strings_view(out@) == start + entries_diff(na, xs@.take(k as int), nb, ys@, a, p, ta@, tb@),
                decreases xs@.len() - k,
            {
                proof {
                    assert(xs@.take(k + 1).drop_last() =~= xs@.take(k as int));
                    assert(xs@.take(k + 1).last() == xs@[k as int]);
                    crate::document::lemma_entry_below(na, a.0 as int, k as int);
                    assert(xs@[k as int].1.0 < a.0);
                }
                let (key_id, value_id) = xs[k];
                let name = match doc_a.node(key_id) {
                    Some(kn) => match &kn.kind {
                        NodeKind::Scalar(sc) => Some(sc.raw.clone()),
                        _ => None,
                    },
                    None => None,
                };
                match name {
                    None => {},
                    Some(name) => {
                        let ghost name_v = name@;
                        let found = find_named(doc_b, ys, name.as_str());
                        proof {
                            crate::edit_path::lemma_first_named_bound(nb, ys@, name_v);
                        }
                        match found {
                            Some(j) => {
                                proof {
                                    lemma_keys_push(path@, Key::Field(name));
                                }
                                path.push(Key::Field(name));
                                diff_nodes(doc_a, value_id, doc_b, ys[j].1, path, out, ta, tb);
                                let _ = path.pop();
                            },
                            None => {
                                proof {
                                    lemma_keys_push(path@, Key::Field(name));
                                }
                                path.push(Key::Field(name));
                                let d = describe(doc_a, value_id);
                                let line = entry_line_exec('-', path, &d);
                                let ghost before = strings_view(out@);
                                out.push(line);
                                assert(strings_view(out@) =~= before.push(line@));
                                let _ = path.pop();
                            },
                        }
                    },
                }
                k = k + 1;
                assert(strings_view(out@) =~= start + entries_diff(na, xs@.take(k as int), nb, ys@, a, p, ta@, tb@));
            }
            let ghost mid = strings_view(out@);
            let mut k: usize = 0;
            assert(ys@.take(0) =~= Seq::<(NodeId, NodeId)>::empty());
            while k < ys.len()
                invariant
                    na == doc_a.nodes@,
                    nb == doc_b.nodes@,
                    k <= ys@.len(),
                    path@ == path0,
                    p == keys_model(path0),
                    strings_view(out@) == mid + added_entries(na, xs@, nb, ys@.take(k as int), p),
                decreases ys@.len() - k,
            {
                proof {
                    assert(ys@.take(k + 1).drop_last() =~= ys@.take(k as int));
                    assert(ys@.take(k + 1).last() == ys@[k as int]);
                }
                let (key_id, value_id) = ys[k];
                let name = match doc_b.node(key_id) {
                    Some(kn) => match &kn.kind {
                        NodeKind::Scalar(sc) => Some(sc.raw.clone()),
                        _ => None,
                    },
                    None => None,
                };
                match name {
                    None => {},
                    Some(name) => {
                        if find_named(doc_a, xs, name.as_str()).is_none() {
                            proof {
                                lemma_keys_push(path@, Key::Field(name));
                            }
                            path.push(Key::Field(name));
                            let d = describe(doc_b, value_id);
                            let line = entry_line_exec('+', path, &d);
                            proof {
                                assert(key_name(nb, ys@[k as int].0) == Some(name@));
                                assert(first_named(na, xs@, name@) is None);
                                assert(line@ == entry_line('+', p.push(KeyModel::Field(name@)), describe_spec(nb, ys@[k as int].1)));
                            }
                            let ghost before = strings_view(out@);
                            out.push(line);
                            assert(strings_view(out@) =~= before.push(line@));
                            let _ = path.pop();
                        }
                    },
                }
                k = k + 1;
                assert(strings_view(out@) =~= mid + added_entries(na, xs@, nb, ys@.take(k as int), p));
            }
            proof {
                assert(xs@.take(xs@.len() as int) =~= xs@);
                assert(ys@.take(ys@.len() as int) =~= ys@);
                assert(strings_view(out@) =~= start + diff_spec(na, id_a, nb, id_b, p, ta@, tb@));
            }
        },
        _ => {
            let before = describe(doc_a, a);
            let after = describe(doc_b, b);
            let line = change_line_exec(path, &before, &after);
            out.push(line);
            assert(strings_view(out@) =~= start + diff_spec(na, id_a, nb, id_b, p, ta@, tb@));
        },
    }
}

/// No float scalar of `nodes` displays as NaN by `table`.
pub open spec fn no_nan(nodes: Seq<NodeData>, table: Seq<(Seq<char>, Seq<char>)>) -> bool {
    forall|k: int| 0 <= k < nodes.len() ==> match (#[trigger] nodes[k]).kind {
        NodeKind::Scalar(s) => match s.value {
            ScalarValue::Float(t) => shown(table, t@) != "NaN"@,
            _ => true,
        },
        _ => true,
    }
}

/// Every alias chain of `nodes` ends within the hop limit at a node that is no alias.
pub open spec fn chains_resolve(nodes: Seq<NodeData>) -> bool {
    forall|k: NodeId|
        (k.0 as int) < nodes.len() && (#[trigger] deref_spec(nodes, k, 0).0 as int) < nodes.len()
            ==> !(nodes[deref_spec(nodes, k, 0).0 as int].kind is Alias)
}

/// No mapping of `nodes` has two scalar keys spelled alike.
pub open spec fn keys_unique(nodes: Seq<NodeData>) -> bool {
    forall|k: int, i: int, j: int|
        0 <= k < nodes.len() && nodes[k].kind is Mapping && 0 <= i < j < nodes[k].kind->Mapping_0@.len()
            ==> !(key_name(nodes, #[trigger] nodes[k].kind->Mapping_0@[i].0) is Some && key_name(nodes, nodes[k].kind->Mapping_0@[i].0)
            == key_name(nodes, #[trigger] nodes[k].kind->Mapping_0@[j].0))
}

/// An entry keyed `name` with no earlier one is the first found.
proof fn lemma_first_named_at(nodes: Seq<NodeData>, es: Seq<(NodeId, NodeId)>, j: int, name: Seq<char>)
    requires
        0 <= j < es.len(),
        key_named(nodes, es[j].0, name),
        forall|i: int| 0 <= i < j ==> !key_named(nodes, #[trigger] es[i].0, name),
    ensures
        first_named(nodes, es, name) == Some(j),
    decreases j,
{
    if j > 0 {
        assert forall|i: int| 0 <= i < j - 1 implies !key_named(nodes, #[trigger] es.drop_first()[i].0, name) by {
            assert(es.drop_first()[i] == es[i + 1]);
        }
        assert(es.drop_first()[j - 1] == es[j]);
        lemma_first_named_at(nodes, es.drop_first(), j - 1, name);
        assert(!key_named(nodes, es[0].0, name));
    }
}

/// Comparing a node with itself finds nothing when no float is NaN, no mapping repeats a key
/// and every alias chain resolves within the hop limit: the diff of identical documents is
/// empty.
pub proof fn lemma_diff_of_itself(nodes: Seq<NodeData>, id: NodeId, path: Seq<KeyModel>, table: Seq<(Seq<char>, Seq<char>)>)
    requires
        arena_ok(nodes),
        chains_resolve(nodes),
        no_nan(nodes, table),
        keys_unique(nodes),
    ensures
        diff_spec(nodes, id, nodes, id, path, table, table) == Seq::<Seq<char>>::empty(),
    decreases id.0, 1int, 0int,
{
    lemma_deref_below(nodes, id, 0);
    if let Some((a, b)) = compared(nodes, id, nodes, id) {
        assert(a == b);
        assert(!(nodes[deref_spec(nodes, id, 0).0 as int].kind is Alias));
        match nodes[a.0 as int].kind {
            NodeKind::Scalar(x) => {
                assert(no_nan(nodes, table) ==> match nodes[a.0 as int].kind {
                    NodeKind::Scalar(s) => match s.value {
                        ScalarValue::Float(t) => shown(table, t@) != "NaN"@,
                        _ => true,
                    },
                    _ => true,
                });
                assert(values_same(x.value, x.value, table, table));
                assert(diff_spec(nodes, id, nodes, id, path, table, table) =~= Seq::<Seq<char>>::empty());
            },
            NodeKind::Sequence(xs) => {
                lemma_items_of_themselves(nodes, xs@, a, path, table, xs@.len() as int);
                assert(extra_items(nodes, xs@, path, xs@.len() as int, '-') =~= Seq::<Seq<char>>::empty());
                assert(extra_items(nodes, xs@, path, xs@.len() as int, '+') =~= Seq::<Seq<char>>::empty());
                assert(diff_spec(nodes, id, nodes, id, path, table, table) =~= Seq::<Seq<char>>::empty());
            },
            NodeKind::Mapping(xs) => {
                lemma_entries_of_themselves(nodes, xs@, a, path, table, xs@.len() as int);
                assert(xs@.take(xs@.len() as int) =~= xs@);
                lemma_none_added(nodes, xs@, path, xs@.len() as int);
                assert(diff_spec(nodes, id, nodes, id, path, table, table) =~= Seq::<Seq<char>>::empty());
            },
            _ => {},
        }
    }
}

proof fn lemma_items_of_themselves(
    nodes: Seq<NodeData>,
    xs: Seq<NodeId>,
    bound: NodeId,
    path: Seq<KeyModel>,
    table: Seq<(Seq<char>, Seq<char>)>,
    k: int,
)
    requires
        arena_ok(nodes),
        chains_resolve(nodes),
        no_nan(nodes, table),
        keys_unique(nodes),
    ensures
        items_diff(nodes, xs, nodes, xs, bound, path, table, table, k) == Seq::<Seq<char>>::empty(),
    decreases bound.0, 0int, k,
{
    if k > 0 {
        lemma_items_of_themselves(nodes, xs, bound, path, table, k - 1);
        if xs[k - 1].0 < bound.0 {
            lemma_diff_of_itself(nodes, xs[k - 1], path.push(KeyModel::Index((k - 1) as nat)), table);
        }
        assert(items_diff(nodes, xs, nodes, xs, bound, path, table, table, k) =~= Seq::<Seq<char>>::empty());
    }
}

proof fn lemma_entries_of_themselves(
    nodes: Seq<NodeData>,
    xs: Seq<(NodeId, NodeId)>,
    bound: NodeId,
    path: Seq<KeyModel>,
    table: Seq<(Seq<char>, Seq<char>)>,
    k: int,
)
    requires
        arena_ok(nodes),
        chains_resolve(nodes),
        no_nan(nodes, table),
        keys_unique(nodes),
        0 <= k <= xs.len(),
        (bound.0 as int) < nodes.len(),
        nodes[bound.0 as int].kind matches NodeKind::Mapping(es) && es@ == xs,
    ensures
        entries_diff(nodes, xs.take(k), nodes, xs, bound, path, table, table) == Seq::<Seq<char>>::empty(),
    decreases bound.0, 0int, k,
{
    if k > 0 {
        assert(xs.take(k).drop_last() =~= xs.take(k - 1));
        assert(xs.take(k).last() == xs[k - 1]);
        lemma_entries_of_themselves(nodes, xs, bound, path, table, k - 1);
        let (kid, v) = xs[k - 1];
        if let Some(name) = key_name(nodes, kid) {
            assert(key_named(nodes, kid, name));
            assert forall|i: int| 0 <= i < k - 1 implies !key_named(nodes, #[trigger] xs[i].0, name) by {
                if key_named(nodes, xs[i].0, name) {
                    assert(key_name(nodes, xs[i].0) == Some(name));
                    assert(!(key_name(nodes, nodes[bound.0 as int].kind->Mapping_0@[i].0) is Some
                        && key_name(nodes, nodes[bound.0 as int].kind->Mapping_0@[i].0)
                        == key_name(nodes, nodes[bound.0 as int].kind->Mapping_0@[k - 1].0)));
                }
            }
            lemma_first_named_at(nodes, xs, k - 1, name);
            if v.0 < bound.0 {
                lemma_diff_of_itself(nodes, v, path.push(KeyModel::Field(name)), table);
            }
        }
        assert(entries_diff(nodes, xs.take(k), nodes, xs, bound, path, table, table) =~= Seq::<Seq<char>>::empty());
    }
}

/// Every scalar-keyed entry of `xs` is found among `xs`, so none is reported as added.
proof fn lemma_none_added(nodes: Seq<NodeData>, xs: Seq<(NodeId, NodeId)>, path: Seq<KeyModel>, k: int)
    requires
        0 <= k <= xs.len(),
    ensures
        added_entries(nodes, xs, nodes, xs.take(k), path) == Seq::<Seq<char>>::empty(),
    decreases k,
{
    if k > 0 {
        assert(xs.take(k).drop_last() =~= xs.take(k - 1));
        assert(xs.take(k).last() == xs[k - 1]);
        lemma_none_added(nodes, xs, path, k - 1);
        if let Some(name) = key_name(nodes, xs[k - 1].0) {
            assert(key_named(nodes, xs[k - 1].0, name));
            lemma_first_named_found(nodes, xs, k - 1, name);
        }
    } else {
        assert(xs.take(0) =~= Seq::<(NodeId, NodeId)>::empty());
    }
}

/// Some entry is keyed `name` when entry `j` is.
proof fn lemma_first_named_found(nodes: Seq<NodeData>, es: Seq<(NodeId, NodeId)>, j: int, name: Seq<char>)
    requires
        0 <= j < es.len(),
        key_named(nodes, es[j].0, name),
    ensures
        first_named(nodes, es, name) is Some,
    decreases j,
{
    if j > 0 && !key_named(nodes, es[0].0, name) {
        assert(es.drop_first()[j - 1] == es[j]);
        lemma_first_named_found(nodes, es.drop_first(), j - 1, name);
    }
}

/// Two scalar values that are not floats count as the same exactly when they are equal: same
/// kind and same contents (`true` and `false` differ, `1` and `"1"` differ).
pub proof fn same_values_are_equal(
    a: ScalarValue,
    b: ScalarValue,
    ta: Seq<(Seq<char>, Seq<char>)>,
    tb: Seq<(Seq<char>, Seq<char>)>,
)
    requires
        !(a is Float),
    ensures
        values_same(a, b, ta, tb) <==> a@ == b@,
{
}

/// Two scalar nodes show no difference exactly when their values are the same; so two scalars
/// that are not floats and hold different values give one change line, from one spelling to
/// the other.
pub proof fn scalar_nodes_differ_by_value(
    na: Seq<NodeData>,
    ia: NodeId,
    nb: Seq<NodeData>,
    ib: NodeId,
    path: Seq<KeyModel>,
    ta: Seq<(Seq<char>, Seq<char>)>,
    tb: Seq<(Seq<char>, Seq<char>)>,
)
    requires
        (ia.0 as int) < na.len(),
        (ib.0 as int) < nb.len(),
        na[ia.0 as int].kind is Scalar,
        nb[ib.0 as int].kind is Scalar,
        !(na[ia.0 as int].kind->Scalar_0.value is Float),
    ensures
        ({
            let x = na[ia.0 as int].kind->Scalar_0;
            let y = nb[ib.0 as int].kind->Scalar_0;
            &&& x.value@ == y.value@ ==> diff_spec(na, ia, nb, ib, path, ta, tb) == Seq::<Seq<char>>::empty()
            &&& x.value@ != y.value@ ==> diff_spec(na, ia, nb, ib, path, ta, tb) == seq![
                change_line(path, scalar_display(x.value, x.raw@), scalar_display(y.value, y.raw@)),
            ]
        }),
{
    assert(deref_spec(na, ia, 0) == ia);
    assert(deref_spec(nb, ib, 0) == ib);
}

} // verus!
