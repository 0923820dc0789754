//! Editing a parsed document: change values, and render back only what changed, copying every
//! untouched node from the source.
//!
//! An edit builds fresh nodes for the new value and splices the new node's id into its parent,
//! marking every node on the path from the root dirty. Rendering copies a node with a source span
//! that is not dirty byte for byte from the source, and rebuilds a dirty or fresh one from its
//! children by the same rule, so that untouched parts keep their text, comments included.
use vstd::prelude::*;
use crate::diagnostics::on_boundary;
use crate::document::{aliases_below, Document, NodeData, NodeKind, Scalar};
use crate::edit::{Error, Key, KeyModel, Path};
use crate::lexer_spans::spans_ok;
use crate::edit_path::{child_index, child_index_spec, first_named, key_named, resolve_spec, resolve_trail, step_spec, trail_spec};
use crate::node::{NodeId, ParserOptions, ScalarStyle, ScalarValue};
use crate::parser::{parse_with, SexagesimalFloats};
use crate::pretty::{inline_text, nonempty_collection, spaces, FloatDisplay, FloatTable};
use crate::span::Span;
use crate::charseq::split_char;
use crate::resolve_spec::ScalarModel;
use crate::text::{byte_len, byte_offsets, chars_of, string_from_chars};

verus! {

/// A value to write into an [`EditableDocument`].
#[derive(Debug)]
pub enum EditValue {
    Scalar(ScalarValue),
    Sequence(Vec<EditValue>),
    Mapping(Vec<(String, EditValue)>),
}

/// Node `id` of `nodes` holds `v`, through nodes at `lo` or above: a scalar of the same
/// value, a sequence whose items hold the items of `v`, or a mapping whose keys are scalars
/// spelled like the keys of `v` and whose values hold its values.
pub open spec fn builds(nodes: Seq<NodeData>, id: NodeId, v: EditValue, lo: int) -> bool
    decreases v,
{
    if lo <= id.0 && (id.0 as int) < nodes.len() {
        match v {
            EditValue::Scalar(sv) => match nodes[id.0 as int].kind {
                NodeKind::Scalar(sc) => sc.value@ == sv@,
                _ => false,
            },
            EditValue::Sequence(items) => match nodes[id.0 as int].kind {
                NodeKind::Sequence(ids) => builds_all(nodes, ids@, items@, lo),
                _ => false,
            },
            EditValue::Mapping(entries) => match nodes[id.0 as int].kind {
                NodeKind::Mapping(es) => builds_entries(nodes, es@, entries@, lo),
                _ => false,
            },
        }
    } else {
        false
    }
}

pub open spec fn builds_all(nodes: Seq<NodeData>, ids: Seq<NodeId>, items: Seq<EditValue>, lo: int) -> bool
    decreases items,
{
    &&& ids.len() == items.len()
    &&& (items.len() == 0 || (builds(nodes, ids[0], items[0], lo) && builds_all(
        nodes,
        ids.drop_first(),
        items.drop_first(),
        lo,
    )))
}

pub open spec fn builds_entries(
    nodes: Seq<NodeData>,
    es: Seq<(NodeId, NodeId)>,
    entries: Seq<(String, EditValue)>,
    lo: int,
) -> bool
    decreases entries,
{
    &&& es.len() == entries.len()
    &&& (entries.len() == 0 || (lo <= es[0].0.0 && key_named(nodes, es[0].0, entries[0].0@) && builds(
        nodes,
        es[0].1,
        entries[0].1,
        lo,
    ) && builds_entries(nodes, es.drop_first(), entries.drop_first(), lo)))
}

/// How many nodes building `v` adds: one per scalar, sequence and mapping, and one more for
/// each mapping key.
pub open spec fn value_size(v: EditValue) -> nat
    decreases v,
{
    match v {
        EditValue::Scalar(_) => 1,
        EditValue::Sequence(items) => 1 + items_size(items@),
        EditValue::Mapping(entries) => 1 + entries_size(entries@),
    }
}

pub open spec fn items_size(items: Seq<EditValue>) -> nat
    decreases items,
{
    if items.len() == 0 {
        0
    } else {
        items_size(items.drop_last()) + value_size(items.last())
    }
}

pub open spec fn entries_size(entries: Seq<(String, EditValue)>) -> nat
    decreases entries,
{
    if entries.len() == 0 {
        0
    } else {
        entries_size(entries.drop_last()) + 1 + value_size(entries.last().1)
    }
}

/// The most nodes an arena holds: node ids are 32-bit.
pub open spec fn arena_limit() -> int {
    u32::MAX as int + 1
}

proof fn lemma_items_size_prefix(items: Seq<EditValue>, i: int)
    requires
        0 <= i <= items.len(),
    ensures
        items_size(items.take(i)) <= items_size(items),
    decreases items.len() - i,
{
    if i < items.len() {
        lemma_items_size_prefix(items, i + 1);
        assert(items.take(i + 1).drop_last() =~= items.take(i));
    } else {
        assert(items.take(i) =~= items);
    }
}

proof fn lemma_entries_size_prefix(entries: Seq<(String, EditValue)>, i: int)
    requires
        0 <= i <= entries.len(),
    ensures
        entries_size(entries.take(i)) <= entries_size(entries),
    decreases entries.len() - i,
{
    if i < entries.len() {
        lemma_entries_size_prefix(entries, i + 1);
        assert(entries.take(i + 1).drop_last() =~= entries.take(i));
    } else {
        assert(entries.take(i) =~= entries);
    }
}

/// `after` keeps the nodes of `before` from `lo` on.
pub open spec fn keeps_from(before: Seq<NodeData>, after: Seq<NodeData>, lo: int) -> bool {
    &&& after.len() >= before.len()
    &&& forall|x: int| lo <= x < before.len() ==> after[x] == before[x]
}

/// What holds a value through nodes at `lo` or above still holds it when those nodes are kept.
pub proof fn lemma_builds_frame(before: Seq<NodeData>, after: Seq<NodeData>, id: NodeId, v: EditValue, lo: int)
    requires
        builds(before, id, v, lo),
        keeps_from(before, after, lo),
    ensures
        builds(after, id, v, lo),
    decreases v,
{
    assert(after[id.0 as int] == before[id.0 as int]);
    match v {
        EditValue::Scalar(_) => {},
        EditValue::Sequence(items) => {
            if let NodeKind::Sequence(ids) = before[id.0 as int].kind {
                lemma_builds_all_frame(before, after, ids@, items@, lo);
            }
        },
        EditValue::Mapping(entries) => {
            if let NodeKind::Mapping(es) = before[id.0 as int].kind {
                lemma_builds_entries_frame(before, after, es@, entries@, lo);
            }
        },
    }
}

proof fn lemma_builds_all_frame(before: Seq<NodeData>, after: Seq<NodeData>, ids: Seq<NodeId>, items: Seq<EditValue>, lo: int)
    requires
        builds_all(before, ids, items, lo),
        keeps_from(before, after, lo),
    ensures
        builds_all(after, ids, items, lo),
    decreases items,
{
    if items.len() > 0 {
        lemma_builds_frame(before, after, ids[0], items[0], lo);
        lemma_builds_all_frame(before, after, ids.drop_first(), items.drop_first(), lo);
    }
}

proof fn lemma_builds_entries_frame(
    before: Seq<NodeData>,
    after: Seq<NodeData>,
    es: Seq<(NodeId, NodeId)>,
    entries: Seq<(String, EditValue)>,
    lo: int,
)
    requires
        builds_entries(before, es, entries, lo),
        keeps_from(before, after, lo),
    ensures
        builds_entries(after, es, entries, lo),
    decreases entries,
{
    if entries.len() > 0 {
        assert(after[es[0].0.0 as int] == before[es[0].0.0 as int]);
        lemma_builds_frame(before, after, es[0].1, entries[0].1, lo);
        lemma_builds_entries_frame(before, after, es.drop_first(), entries.drop_first(), lo);
    }
}

/// Holding a value through nodes at `lo` or above is holding it through nodes at any lower
/// bound.
pub proof fn lemma_builds_lower(nodes: Seq<NodeData>, id: NodeId, v: EditValue, lo: int, lo2: int)
    requires
        builds(nodes, id, v, lo),
        lo2 <= lo,
    ensures
        builds(nodes, id, v, lo2),
    decreases v,
{
    match v {
        EditValue::Scalar(_) => {},
        EditValue::Sequence(items) => {
            if let NodeKind::Sequence(ids) = nodes[id.0 as int].kind {
                lemma_builds_all_lower(nodes, ids@, items@, lo, lo2);
            }
        },
        EditValue::Mapping(entries) => {
            if let NodeKind::Mapping(es) = nodes[id.0 as int].kind {
                lemma_builds_entries_lower(nodes, es@, entries@, lo, lo2);
            }
        },
    }
}

proof fn lemma_builds_all_lower(nodes: Seq<NodeData>, ids: Seq<NodeId>, items: Seq<EditValue>, lo: int, lo2: int)
    requires
        builds_all(nodes, ids, items, lo),
        lo2 <= lo,
    ensures
        builds_all(nodes, ids, items, lo2),
    decreases items,
{
    if items.len() > 0 {
        lemma_builds_lower(nodes, ids[0], items[0], lo, lo2);
        lemma_builds_all_lower(nodes, ids.drop_first(), items.drop_first(), lo, lo2);
    }
}

proof fn lemma_builds_entries_lower(nodes: Seq<NodeData>, es: Seq<(NodeId, NodeId)>, entries: Seq<(String, EditValue)>, lo: int, lo2: int)
    requires
        builds_entries(nodes, es, entries, lo),
        lo2 <= lo,
    ensures
        builds_entries(nodes, es, entries, lo2),
    decreases entries,
{
    if entries.len() > 0 {
        lemma_builds_lower(nodes, es[0].1, entries[0].1, lo, lo2);
        lemma_builds_entries_lower(nodes, es.drop_first(), entries.drop_first(), lo, lo2);
    }
}


/// The edge from `parent` to `child` leads down the ranking: to a later generation, or to an
/// earlier node of the same generation.
pub open spec fn edge_down(gen: Seq<nat>, parent: int, child: int) -> bool {
    gen[child] > gen[parent] || (gen[child] == gen[parent] && child < parent)
}

/// Every node that node `k` refers to as an entry or item exists and lies down the ranking.
pub open spec fn node_ranked(nodes: Seq<NodeData>, gen: Seq<nat>, k: int) -> bool {
    match nodes[k].kind {
        NodeKind::Mapping(es) => forall|j: int|
            0 <= j < es@.len() ==> (#[trigger] es@[j]).0.0 < nodes.len() && es@[j].1.0 < nodes.len()
                && edge_down(gen, k, es@[j].0.0 as int) && edge_down(gen, k, es@[j].1.0 as int),
        NodeKind::Sequence(items) => forall|j: int|
            0 <= j < items@.len() ==> (#[trigger] items@[j]).0 < nodes.len() && edge_down(gen, k, items@[j].0 as int),
        _ => true,
    }
}

/// The structure is acyclic: `gen` ranks every node so that references lead down.
pub open spec fn ranked(nodes: Seq<NodeData>, gen: Seq<nat>) -> bool {
    &&& gen.len() == nodes.len()
    &&& forall|k: int| 0 <= k < nodes.len() ==> #[trigger] node_ranked(nodes, gen, k)
}

/// A well-formed arena is ranked with every node in the first generation.
proof fn lemma_arena_ranked(nodes: Seq<NodeData>)
    requires
        crate::document::arena_ok(nodes),
    ensures
        ranked(nodes, Seq::new(nodes.len(), |i: int| 0nat)),
{
    let gen = Seq::new(nodes.len(), |i: int| 0nat);
    assert forall|k: int| 0 <= k < nodes.len() implies #[trigger] node_ranked(nodes, gen, k) by {
        assert(crate::document::refs_below(nodes[k].kind, k));
    }
}

/// The decimal spelling of an integer, as a string.
fn int_string(i: i64) -> (r: String)
    ensures
        r@ == crate::pretty::int_text(i as int),
{
    string_from_chars(crate::pretty::int_chars(i).as_slice())
}

/// A parsed document together with the nodes changed since it was parsed.
pub struct EditableDocument<'a, F: SexagesimalFloats + FloatDisplay> {
    source: String,
    document: Document,
    /// Nodes on the path of some edit, whose text no longer comes from the source.
    dirty: Vec<NodeId>,
    /// Decides sexagesimal floats when parsing and how floats print.
    floats: &'a F,
    /// The generation each node was built in: parsed nodes are of the first, and every edit
    /// builds its nodes in a later one.
    gen: Ghost<Seq<nat>>,
    /// The generation of the latest edit.
    era: Ghost<nat>,
}

impl<'a, F: SexagesimalFloats + FloatDisplay> EditableDocument<'a, F> {
    pub closed spec fn inv(&self) -> bool {
        &&& ranked(self.document.nodes@, self.gen@)
        &&& forall|k: int| 0 <= k < self.gen@.len() ==> #[trigger] self.gen@[k] <= self.era@
        &&& aliases_below(self.document.nodes@)
        &&& self.document.documents@.len() >= 1
        &&& (self.document.documents@[0].0 as int) < self.document.nodes@.len()
        &&& spans_ok(self.source@, self.document.nodes@)
        &&& self.document.nodes@.len() <= u32::MAX as int + 1
    }

    /// The arena, edits included.
    pub closed spec fn nodes(&self) -> Seq<NodeData> {
        self.document.nodes@
    }

    /// The first document's root.
    pub closed spec fn root_id(&self) -> NodeId {
        self.document.documents@[0]
    }

    /// The source text the document was parsed from.
    pub closed spec fn source_text(&self) -> Seq<char> {
        self.source@
    }

    /// No edit touched the document yet.
    pub closed spec fn unedited(&self) -> bool {
        self.dirty@.len() == 0
    }

    /// The nodes on the path of some edit: rendering rebuilds these and copies every other
    /// node with a source span from the source.
    pub closed spec fn dirty_nodes(&self) -> Set<NodeId> {
        self.dirty@.to_set()
    }

    /// Parses `source` for editing.
    pub fn parse(source: &str, floats: &'a F) -> (r: Result<Self, Error>)
        requires
            byte_len(source@) <= isize::MAX,
        ensures
            r matches Ok(d) ==> d.inv() && d.unedited() && d.source_text() == source@,
            r matches Err(e) ==> e is Parse,
            crate::lexer_spec::lex_spec(source@).1 is Some ==> r is Err,
            source@.len() == 0 ==> (r matches Ok(d) && d.nodes().len() == 1),
    {
        let document = match parse_with(source, &ParserOptions::default(), floats) {
            Ok(d) => d,
            Err(e) => {
                return Err(Error::from_yaml_error(&e));
            },
        };
        let ghost n = document.nodes@.len();
        proof {
            lemma_arena_ranked(document.nodes@);
            crate::document::lemma_arena_aliases(document.nodes@);
        }
        let copy = string_from_chars(chars_of(source).as_slice());
        let d = EditableDocument {
            source: copy,
            document,
            dirty: Vec::new(),
            floats,
            gen: Ghost(Seq::new(n, |i: int| 0nat)),
            era: Ghost(0),
        };
        Ok(d)
    }

    /// The underlying arena, edits included.
    pub fn document(&self) -> (r: &Document)
        ensures
            r.nodes@ == self.nodes(),
    {
        &self.document
    }

    fn root(&self) -> (r: Result<NodeId, Error>)
        ensures
            match r {
                Ok(id) => self.document.documents@.len() > 0 && id == self.document.documents@[0]
                    && (id.0 as int) < self.document.nodes@.len(),
                Err(e) => e == Error::EmptyDocument && !(self.document.documents@.len() > 0
                    && (self.document.documents@[0].0 as int) < self.document.nodes@.len()),
            },
    {
        match self.document.root() {
            Some(r) => Ok(r),
            None => Err(Error::EmptyDocument),
        }
    }
}


proof fn lemma_builds_all_push(nodes: Seq<NodeData>, ids: Seq<NodeId>, items: Seq<EditValue>, x: NodeId, v: EditValue, lo: int)
    requires
        builds_all(nodes, ids, items, lo),
        builds(nodes, x, v, lo),
    ensures
        builds_all(nodes, ids.push(x), items.push(v), lo),
    decreases items.len(),
{
    if items.len() > 0 {
        assert(ids.push(x).drop_first() =~= ids.drop_first().push(x));
        assert(items.push(v).drop_first() =~= items.drop_first().push(v));
        lemma_builds_all_push(nodes, ids.drop_first(), items.drop_first(), x, v, lo);
        assert(ids.push(x)[0] == ids[0]);
        assert(items.push(v)[0] == items[0]);
    } else {
        assert(ids.push(x).drop_first() =~= Seq::<NodeId>::empty());
        assert(items.push(v).drop_first() =~= Seq::<EditValue>::empty());
        assert(builds_all(nodes, Seq::<NodeId>::empty(), Seq::<EditValue>::empty(), lo));
        assert(ids.push(x)[0] == x);
        assert(items.push(v)[0] == v);
    }
}

proof fn lemma_builds_entries_push(
    nodes: Seq<NodeData>,
    es: Seq<(NodeId, NodeId)>,
    entries: Seq<(String, EditValue)>,
    k: NodeId,
    x: NodeId,
    name: String,
    v: EditValue,
    lo: int,
)
    requires
        builds_entries(nodes, es, entries, lo),
        lo <= k.0,
        key_named(nodes, k, name@),
        builds(nodes, x, v, lo),
    ensures
        builds_entries(nodes, es.push((k, x)), entries.push((name, v)), lo),
    decreases entries.len(),
{
    if entries.len() > 0 {
        assert(es.push((k, x)).drop_first() =~= es.drop_first().push((k, x)));
        assert(entries.push((name, v)).drop_first() =~= entries.drop_first().push((name, v)));
        lemma_builds_entries_push(nodes, es.drop_first(), entries.drop_first(), k, x, name, v, lo);
        assert(es.push((k, x))[0] == es[0]);
        assert(entries.push((name, v))[0] == entries[0]);
    } else {
        assert(es.push((k, x)).drop_first() =~= Seq::<(NodeId, NodeId)>::empty());
        assert(entries.push((name, v)).drop_first() =~= Seq::<(String, EditValue)>::empty());
        assert(builds_entries(nodes, Seq::<(NodeId, NodeId)>::empty(), Seq::<(String, EditValue)>::empty(), lo));
        assert(es.push((k, x))[0] == (k, x));
        assert(entries.push((name, v))[0] == (name, v));
    }
}

/// Every id of `kind` lies in generation `era` below `n`.
spec fn fresh_children(kind: NodeKind, gen: Seq<nat>, era: nat, n: int) -> bool {
    match kind {
        NodeKind::Mapping(es) => forall|j: int|
            0 <= j < es@.len() ==> (#[trigger] es@[j]).0.0 < n && es@[j].1.0 < n && gen[es@[j].0.0 as int] == era
                && gen[es@[j].1.0 as int] == era,
        NodeKind::Sequence(items) => forall|j: int|
            0 <= j < items@.len() ==> (#[trigger] items@[j]).0 < n && gen[items@[j].0 as int] == era,
        NodeKind::Scalar(_) => true,
        NodeKind::Alias(_) => false,
    }
}

impl<'a, F: SexagesimalFloats + FloatDisplay> EditableDocument<'a, F> {
    /// What building keeps: the existing nodes and their generations, and everything but the
    /// arena.
    spec fn grows(&self, after: &Self) -> bool {
        &&& self.gen@.len() == self.document.nodes@.len()
        &&& keeps_from(self.document.nodes@, after.document.nodes@, 0)
        &&& after.gen@.len() == after.document.nodes@.len()
        &&& forall|x: int| 0 <= x < self.gen@.len() ==> after.gen@[x] == self.gen@[x]
        &&& forall|x: int| self.gen@.len() <= x < after.gen@.len() ==> after.gen@[x] == self.era@
        &&& after.era == self.era
        &&& after.source == self.source
        &&& after.dirty == self.dirty
        &&& after.document.documents == self.document.documents
        &&& after.document.version == self.document.version
        &&& after.floats == self.floats
    }

    proof fn lemma_grows_trans(a: &Self, b: &Self, c: &Self)
        requires
            a.grows(b),
            b.grows(c),
        ensures
            a.grows(c),
    {
        assert forall|x: int| a.gen@.len() <= x < c.gen@.len() implies c.gen@[x] == a.era@ by {
            if x < b.gen@.len() {
                assert(c.gen@[x] == b.gen@[x]);
            }
        }
        assert forall|x: int| 0 <= x < a.document.nodes@.len() implies c.document.nodes@[x] == a.document.nodes@[x] by {
            assert(b.document.nodes@[x] == a.document.nodes@[x]);
        }
        assert forall|x: int| 0 <= x < a.gen@.len() implies c.gen@[x] == a.gen@[x] by {
            assert(b.gen@[x] == a.gen@[x]);
        }
    }

    /// Adds a fresh node of this generation: no span, no anchor, referring only to nodes of
    /// this generation.
    fn add_fresh(&mut self, kind: NodeKind) -> (r: Result<NodeId, Error>)
        requires
            old(self).inv(),
            fresh_children(kind, old(self).gen@, old(self).era@, old(self).document.nodes@.len() as int),
        ensures
            final(self).inv(),
            old(self).grows(final(self)),
            r is Err ==> *final(self) == *old(self) && r == Err::<NodeId, Error>(Error::DanglingNode)
                && old(self).document.nodes@.len() + 1 > arena_limit(),
            r matches Ok(id) ==> id.0 == old(self).document.nodes@.len() && final(self).document.nodes@.len()
                == old(self).document.nodes@.len() + 1 && final(self).document.nodes@[id.0 as int].kind == kind
                && final(self).gen@[id.0 as int] == final(self).era@,
    {
        if self.document.nodes.len() > 0xffff_ffffusize {
            return Err(Error::DanglingNode);
        }
        let ghost before = self.document.nodes@;
        let ghost n = before.len();
        let id = self.document.add_node(NodeData::new(NodeId(0), kind, None));
        self.gen = Ghost(self.gen@.push(self.era@));
        proof {
            let nodes = self.document.nodes@;
            let gen = self.gen@;
            assert forall|k: int| 0 <= k < nodes.len() implies #[trigger] node_ranked(nodes, gen, k) by {
                if k < n {
                    assert(nodes[k] == before[k]);
                    assert(node_ranked(before, old(self).gen@, k));
                    match nodes[k].kind {
                        NodeKind::Mapping(es) => {
                            assert forall|j: int| 0 <= j < es@.len() implies (#[trigger] es@[j]).0.0 < nodes.len()
                                && es@[j].1.0 < nodes.len() && edge_down(gen, k, es@[j].0.0 as int) && edge_down(gen, k, es@[j].1.0 as int) by {
                                assert(gen[es@[j].0.0 as int] == old(self).gen@[es@[j].0.0 as int]);
                                assert(gen[es@[j].1.0 as int] == old(self).gen@[es@[j].1.0 as int]);
                            }
                        },
                        NodeKind::Sequence(items) => {
                            assert forall|j: int| 0 <= j < items@.len() implies (#[trigger] items@[j]).0 < nodes.len()
                                && edge_down(gen, k, items@[j].0 as int) by {
                                assert(gen[items@[j].0 as int] == old(self).gen@[items@[j].0 as int]);
                            }
                        },
                        _ => {},
                    }
                } else {
                    assert(k == n);
                    match nodes[k].kind {
                        NodeKind::Mapping(es) => {
                            assert forall|j: int| 0 <= j < es@.len() implies (#[trigger] es@[j]).0.0 < nodes.len()
                                && es@[j].1.0 < nodes.len() && edge_down(gen, k, es@[j].0.0 as int) && edge_down(gen, k, es@[j].1.0 as int) by {
                                assert(gen[es@[j].0.0 as int] == old(self).gen@[es@[j].0.0 as int]);
                                assert(gen[es@[j].1.0 as int] == old(self).gen@[es@[j].1.0 as int]);
                            }
                        },
                        NodeKind::Sequence(items) => {
                            assert forall|j: int| 0 <= j < items@.len() implies (#[trigger] items@[j]).0 < nodes.len()
                                && edge_down(gen, k, items@[j].0 as int) by {
                                assert(gen[items@[j].0 as int] == old(self).gen@[items@[j].0 as int]);
                            }
                        },
                        _ => {},
                    }
                }
            }
            assert forall|k: int| 0 <= k < nodes.len() implies match (#[trigger] nodes[k]).kind {
                NodeKind::Alias(t) => (t.0 as int) < k,
                _ => true,
            } by {
                if k < n {
                    assert(nodes[k] == before[k]);
                }
            }
            assert forall|k: int| 0 <= k < nodes.len() implies match (#[trigger] nodes[k]).span {
                Some(sp) => sp.start <= sp.end && on_boundary(self.source@, sp.start as int) && on_boundary(self.source@, sp.end as int),
                None => true,
            } by {
                if k < n {
                    assert(nodes[k] == before[k]);
                }
            }
            assert forall|k: int| 0 <= k < gen.len() implies #[trigger] gen[k] <= self.era@ by {
                if k < n {
                    assert(gen[k] == old(self).gen@[k]);
                }
            }
        }
        Ok(id)
    }

    /// Adds a plain scalar key spelled `name`.
    fn build_key(&mut self, name: &String) -> (r: Result<NodeId, Error>)
        requires
            old(self).inv(),
        ensures
            final(self).inv(),
            old(self).grows(final(self)),
            r matches Ok(id) ==> id.0 == old(self).document.nodes@.len() && key_named(final(self).document.nodes@, id, name@)
                && final(self).gen@[id.0 as int] == final(self).era@
                && final(self).document.nodes@.len() == old(self).document.nodes@.len() + 1,
            r is Err ==> r == Err::<NodeId, Error>(Error::DanglingNode) && old(self).document.nodes@.len() + 1 > arena_limit()
                && *final(self) == *old(self),
    {
        let kind = NodeKind::Scalar(Scalar {
            value: ScalarValue::String(name.clone()),
            style: ScalarStyle::Plain,
            raw: name.clone(),
            tag: None,
        });
        self.add_fresh(kind)
    }
}


/// A copy of a scalar value.
fn copy_value(v: &ScalarValue) -> (r: ScalarValue)
    ensures
        r@ == v@,
{
    match v {
        ScalarValue::Null => ScalarValue::Null,
        ScalarValue::Bool(b) => ScalarValue::Bool(*b),
        ScalarValue::Int(i) => ScalarValue::Int(*i),
        ScalarValue::Float(t) => ScalarValue::Float(t.clone()),
        ScalarValue::String(t) => ScalarValue::String(t.clone()),
        ScalarValue::Timestamp(t) => ScalarValue::Timestamp(t.clone()),
    }
}

impl<'a, F: SexagesimalFloats + FloatDisplay> EditableDocument<'a, F> {
    /// Builds fresh nodes holding `value` and returns the id of its top node. A string is
    /// written double-quoted; any other scalar plain, as it prints.
    fn build(&mut self, value: &EditValue) -> (r: Result<NodeId, Error>)
        requires
            old(self).inv(),
        ensures
            final(self).inv(),
            old(self).grows(final(self)),
            r matches Ok(id) ==> builds(final(self).document.nodes@, id, *value, old(self).document.nodes@.len() as int)
                && final(self).gen@[id.0 as int] == final(self).era@
                && final(self).document.nodes@.len() == old(self).document.nodes@.len() + value_size(*value),
            r is Err ==> r == Err::<NodeId, Error>(Error::DanglingNode)
                && old(self).document.nodes@.len() + value_size(*value) > arena_limit(),
        decreases value,
    {
        let ghost lo = self.document.nodes@.len() as int;
        match value {
            EditValue::Scalar(v) => {
                let (style, raw) = match v {
                    ScalarValue::String(s) => (ScalarStyle::DoubleQuoted, s.clone()),
                    ScalarValue::Null => (ScalarStyle::Plain, String::new()),
                    ScalarValue::Bool(b) => (ScalarStyle::Plain, if *b { "true".to_string() } else { "false".to_string() }),
                    ScalarValue::Int(i) => (ScalarStyle::Plain, int_string(*i)),
                    ScalarValue::Float(t) => (ScalarStyle::Plain, self.floats.display(t.as_str())),
                    ScalarValue::Timestamp(s) => (ScalarStyle::Plain, s.clone()),
                };
                let copy = copy_value(v);
                self.add_fresh(NodeKind::Scalar(Scalar { value: copy, style, raw, tag: None }))
            },
            EditValue::Sequence(items) => {
                let mut ids: Vec<NodeId> = Vec::new();
                let mut i: usize = 0;
                proof {
                    assert(items@.take(0) =~= Seq::<EditValue>::empty());
                }
                while i < items.len()
                    invariant
                        self.inv(),
                        old(self).grows(self),
                        lo == old(self).document.nodes@.len(),
                        *value == EditValue::Sequence(*items),
                        i <= items@.len(),
                        self.document.nodes@.len() == lo + items_size(items@.take(i as int)),
                        builds_all(self.document.nodes@, ids@, items@.take(i as int), lo),
                        forall|j: int| 0 <= j < ids@.len() ==> (#[trigger] ids@[j]).0 < self.document.nodes@.len()
                            && self.gen@[ids@[j].0 as int] == self.era@,
                    decreases items@.len() - i,
                {
                    let ghost s0 = *self;
                    proof {
                        assert(decreases_to!(*value => value->Sequence_0));
                        vstd::std_specs::vec::axiom_vec_index_decreases(*items, i as int);
                        assert(decreases_to!(*value => items[i as int]));
                    }
                    let built = self.build(&items[i]);
                    proof {
                        Self::lemma_grows_trans(old(self), &s0, self);
                    }
                    let id = match built {
                        Ok(id) => id,
                        Err(e) => {
                            proof {
                                assert(items@.take(i + 1).drop_last() =~= items@.take(i as int));
                                lemma_items_size_prefix(items@, i + 1);
                            }
                            return Err(e);
                        },
                    };
                    proof {
                        assert(items@.take(i + 1).drop_last() =~= items@.take(i as int));
                        lemma_builds_all_frame(s0.document.nodes@, self.document.nodes@, ids@, items@.take(i as int), lo);
                        lemma_builds_lower(self.document.nodes@, id, items@[i as int], s0.document.nodes@.len() as int, lo);
                        lemma_builds_all_push(self.document.nodes@, ids@, items@.take(i as int), id, items@[i as int], lo);
                        assert(items@.take(i + 1) =~= items@.take(i as int).push(items@[i as int]));
                        assert forall|j: int| 0 <= j < ids@.len() implies (#[trigger] ids@[j]).0 < self.document.nodes@.len()
                            && self.gen@[ids@[j].0 as int] == self.era@ by {
                            assert(self.gen@[ids@[j].0 as int] == s0.gen@[ids@[j].0 as int]);
                        }
                    }
                    ids.push(id);
                    i = i + 1;
                }
                proof {
                    assert(items@.take(i as int) =~= items@);
                    assert(*value == EditValue::Sequence(*items));
                }
                let ghost s1 = *self;
                let ghost kids = ids@;
                let r = self.add_fresh(NodeKind::Sequence(ids));
                proof {
                    Self::lemma_grows_trans(old(self), &s1, self);
                    if r is Ok {
                        lemma_builds_all_frame(s1.document.nodes@, self.document.nodes@, kids, items@, lo);
                    }
                }
                r
            },
            EditValue::Mapping(entries) => {
                let mut es: Vec<(NodeId, NodeId)> = Vec::new();
                let mut i: usize = 0;
                proof {
                    assert(entries@.take(0) =~= Seq::<(String, EditValue)>::empty());
                }
                while i < entries.len()
                    invariant
                        self.inv(),
                        old(self).grows(self),
                        lo == old(self).document.nodes@.len(),
                        *value == EditValue::Mapping(*entries),
                        i <= entries@.len(),
                        self.document.nodes@.len() == lo + entries_size(entries@.take(i as int)),
                        builds_entries(self.document.nodes@, es@, entries@.take(i as int), lo),
                        forall|j: int| 0 <= j < es@.len() ==> (#[trigger] es@[j]).0.0 < self.document.nodes@.len()
                            && es@[j].1.0 < self.document.nodes@.len() && self.gen@[es@[j].0.0 as int] == self.era@
                            && self.gen@[es@[j].1.0 as int] == self.era@,
                    decreases entries@.len() - i,
                {
                    let ghost s0 = *self;
                    let k = self.build_key(&entries[i].0);
                    proof {
                        Self::lemma_grows_trans(old(self), &s0, self);
                    }
                    let key_id = match k {
                        Ok(id) => id,
                        Err(e) => {
                            proof {
                                assert(entries@.take(i + 1).drop_last() =~= entries@.take(i as int));
                                lemma_entries_size_prefix(entries@, i + 1);
                            }
                            return Err(e);
                        },
                    };
                    let ghost s1 = *self;
                    proof {
                        assert(decreases_to!(*value => value->Mapping_0));
                        vstd::std_specs::vec::axiom_vec_index_decreases(*entries, i as int);
                        assert(decreases_to!(entries[i as int] => entries[i as int].1));
                        assert(decreases_to!(*value => entries[i as int].1));
                    }
                    let built = self.build(&entries[i].1);
                    proof {
                        Self::lemma_grows_trans(old(self), &s1, self);
                    }
                    let value_id = match built {
                        Ok(id) => id,
                        Err(e) => {
                            proof {
                                assert(entries@.take(i + 1).drop_last() =~= entries@.take(i as int));
                                lemma_entries_size_prefix(entries@, i + 1);
                            }
                            return Err(e);
                        },
                    };
                    proof {
                        assert(entries@.take(i + 1).drop_last() =~= entries@.take(i as int));
                        Self::lemma_grows_trans(&s0, &s1, self);
                        lemma_builds_entries_frame(s0.document.nodes@, self.document.nodes@, es@, entries@.take(i as int), lo);
                        lemma_builds_lower(self.document.nodes@, value_id, entries@[i as int].1, s1.document.nodes@.len() as int, lo);
                        assert(self.document.nodes@[key_id.0 as int] == s1.document.nodes@[key_id.0 as int]);
                        lemma_builds_entries_push(self.document.nodes@, es@, entries@.take(i as int), key_id, value_id, entries@[i as int].0, entries@[i as int].1, lo);
                        assert(entries@.take(i + 1) =~= entries@.take(i as int).push(entries@[i as int]));
                        assert(entries@[i as int] == (entries@[i as int].0, entries@[i as int].1));
                        assert forall|j: int| 0 <= j < es@.len() implies (#[trigger] es@[j]).0.0 < self.document.nodes@.len()
                            && es@[j].1.0 < self.document.nodes@.len() && self.gen@[es@[j].0.0 as int] == self.era@
                            && self.gen@[es@[j].1.0 as int] == self.era@ by {
                            assert(self.gen@[es@[j].0.0 as int] == s0.gen@[es@[j].0.0 as int]);
                            assert(self.gen@[es@[j].1.0 as int] == s0.gen@[es@[j].1.0 as int]);
                        }
                        assert(self.gen@[key_id.0 as int] == s1.gen@[key_id.0 as int]);
                    }
                    es.push((key_id, value_id));
                    i = i + 1;
                }
                proof {
                    assert(entries@.take(i as int) =~= entries@);
                    assert(*value == EditValue::Mapping(*entries));
                }
                let ghost s1 = *self;
                let ghost kids = es@;
                let r = self.add_fresh(NodeKind::Mapping(es));
                proof {
                    Self::lemma_grows_trans(old(self), &s1, self);
                    if r is Ok {
                        lemma_builds_entries_frame(s1.document.nodes@, self.document.nodes@, kids, entries@, lo);
                    }
                }
                r
            },
        }
    }
}


/// `after` differs from `before` at most in node `p` and in nodes added after it.
pub open spec fn same_except(before: Seq<NodeData>, after: Seq<NodeData>, p: int) -> bool {
    &&& after.len() >= before.len()
    &&& forall|x: int| 0 <= x < before.len() && x != p ==> after[x] == before[x]
}

/// Node `p` is neither a scalar nor an alias in `nodes`, so no key is spelled by it.
pub open spec fn is_collection(nodes: Seq<NodeData>, p: int) -> bool {
    0 <= p < nodes.len() && (nodes[p].kind is Mapping || nodes[p].kind is Sequence)
}

/// Adding `x` to entries finds the same first entry spelled `name`, or `x` when none was.
proof fn lemma_first_named_push(nodes: Seq<NodeData>, es: Seq<(NodeId, NodeId)>, x: (NodeId, NodeId), name: Seq<char>)
    ensures
        first_named(nodes, es.push(x), name) == match first_named(nodes, es, name) {
            Some(i) => Some(i),
            None => if key_named(nodes, x.0, name) { Some(es.len() as int) } else { None },
        },
    decreases es.len(),
{
    if es.len() > 0 {
        assert(es.push(x).drop_first() =~= es.drop_first().push(x));
        lemma_first_named_push(nodes, es.drop_first(), x, name);
        assert(es.push(x)[0] == es[0]);
        assert(es.drop_first().len() == es.len() - 1);
    } else {
        assert(es.push(x).drop_first() =~= Seq::<(NodeId, NodeId)>::empty());
        assert(es.push(x)[0] == x);
        assert(first_named(nodes, Seq::<(NodeId, NodeId)>::empty(), name) is None);
        assert(first_named(nodes, es, name) is None);
    }
}

/// Entries with the same keys, spelled alike in two arenas, find the same first entry.
proof fn lemma_first_named_same(
    n1: Seq<NodeData>,
    es1: Seq<(NodeId, NodeId)>,
    n2: Seq<NodeData>,
    es2: Seq<(NodeId, NodeId)>,
    name: Seq<char>,
)
    requires
        es1.len() == es2.len(),
        forall|j: int| 0 <= j < es1.len() ==> (#[trigger] es1[j]).0 == es2[j].0,
        forall|j: int| 0 <= j < es1.len() ==> key_named(n1, (#[trigger] es1[j]).0, name) == key_named(n2, es1[j].0, name),
    ensures
        first_named(n1, es1, name) == first_named(n2, es2, name),
    decreases es1.len(),
{
    if es1.len() > 0 {
        assert forall|j: int| 0 <= j < es1.len() - 1 implies (#[trigger] es1.drop_first()[j]).0 == es2.drop_first()[j].0
            && key_named(n1, es1.drop_first()[j].0, name) == key_named(n2, es1.drop_first()[j].0, name) by {
            assert(es1.drop_first()[j] == es1[j + 1]);
            assert(es2.drop_first()[j] == es2[j + 1]);
        }
        lemma_first_named_same(n1, es1.drop_first(), n2, es2.drop_first(), name);
        assert(es1[0].0 == es2[0].0);
    }
}

/// A step down the arena leads down the ranking to an existing node.
proof fn lemma_step_descends(nodes: Seq<NodeData>, gen: Seq<nat>, cur: NodeId, key: KeyModel)
    requires
        ranked(nodes, gen),
    ensures
        step_spec(nodes, cur, key) matches Ok(n) ==> (n.0 as int) < nodes.len() && edge_down(gen, cur.0 as int, n.0 as int),
{
    if let Ok(n) = step_spec(nodes, cur, key) {
        assert(node_ranked(nodes, gen, cur.0 as int));
        match (nodes[cur.0 as int].kind, key) {
            (NodeKind::Mapping(entries), KeyModel::Field(name)) => {
                crate::edit_path::lemma_first_named_bound(nodes, entries@, name);
                let i = first_named(nodes, entries@, name).unwrap();
                assert(entries@[i].1 == n);
            },
            (NodeKind::Sequence(items), KeyModel::Index(i)) => {
                assert(items@[i as int] == n);
            },
            _ => {},
        }
    }
}

/// Following keys from an existing node visits existing nodes, each further down the ranking
/// than every one before it.
proof fn lemma_trail_descends(nodes: Seq<NodeData>, gen: Seq<nat>, root: NodeId, keys: Seq<KeyModel>)
    requires
        ranked(nodes, gen),
        (root.0 as int) < nodes.len(),
    ensures
        trail_spec(nodes, root, keys) matches Ok(t) ==> {
            &&& t.len() == keys.len() + 1
            &&& t[0] == root
            &&& forall|i: int| 0 <= i < t.len() ==> ((#[trigger] t[i]).0 as int) < nodes.len()
            &&& forall|i: int, j: int| 0 <= i < j < t.len() ==> edge_down(gen, t[i].0 as int, t[j].0 as int)
        },
    decreases keys.len(),
{
    if keys.len() > 0 {
        lemma_trail_descends(nodes, gen, root, keys.drop_last());
        if let Ok(t0) = trail_spec(nodes, root, keys.drop_last()) {
            lemma_step_descends(nodes, gen, t0.last(), keys.last());
            if let Ok(n) = step_spec(nodes, t0.last(), keys.last()) {
                let t = t0.push(n);
                assert forall|i: int, j: int| 0 <= i < j < t.len() implies edge_down(gen, t[i].0 as int, t[j].0 as int) by {
                    if j == t.len() - 1 {
                        if i < t0.len() - 1 {
                            assert(edge_down(gen, t0[i].0 as int, t0.last().0 as int));
                        }
                    } else {
                        assert(t[i] == t0[i] && t[j] == t0[j]);
                    }
                }
                assert forall|i: int| 0 <= i < t.len() implies ((#[trigger] t[i]).0 as int) < nodes.len() by {
                    if i < t0.len() {
                        assert(t[i] == t0[i]);
                    }
                }
            }
        }
    }
}

/// Following keys gives the same trail in an arena changed only at a node `p` that the trail
/// reaches at most at its end, when `p` stays a collection (or no node changed, `p` negative).
proof fn lemma_trail_frame(
    before: Seq<NodeData>,
    after: Seq<NodeData>,
    gen: Seq<nat>,
    root: NodeId,
    keys: Seq<KeyModel>,
    p: int,
)
    requires
        ranked(before, gen),
        (root.0 as int) < before.len(),
        same_except(before, after, p),
        0 <= p < before.len() ==> is_collection(before, p) && is_collection(after, p),
        trail_spec(before, root, keys) is Ok,
        forall|j: int| 0 <= j < keys.len() ==> (#[trigger] trail_spec(before, root, keys)->Ok_0[j]).0 != p,
    ensures
        trail_spec(after, root, keys) == trail_spec(before, root, keys),
    decreases keys.len(),
{
    lemma_trail_descends(before, gen, root, keys);
    if keys.len() > 0 {
        let t = trail_spec(before, root, keys)->Ok_0;
        let t0 = trail_spec(before, root, keys.drop_last())->Ok_0;
        assert(t == t0.push(t.last()));
        assert forall|j: int| 0 <= j < keys.drop_last().len() implies (#[trigger] trail_spec(before, root, keys.drop_last())->Ok_0[j]).0 != p by {
            assert(t[j] == t0[j]);
        }
        lemma_trail_frame(before, after, gen, root, keys.drop_last(), p);
        let q = t0.last();
        assert(q == t[keys.len() - 1]);
        assert(q.0 != p);
        lemma_trail_descends(before, gen, root, keys.drop_last());
        assert(after[q.0 as int] == before[q.0 as int]);
        assert(node_ranked(before, gen, q.0 as int));
        if let (NodeKind::Mapping(entries), KeyModel::Field(name)) = (before[q.0 as int].kind, keys.last()) {
            assert forall|j: int| 0 <= j < entries@.len() implies key_named(before, (#[trigger] entries@[j]).0, name)
                == key_named(after, entries@[j].0, name) by {
                let k = entries@[j].0.0 as int;
                if k != p {
                    assert(after[k] == before[k]);
                }
            }
            lemma_first_named_same(before, entries@, after, entries@, name);
        }
        assert(step_spec(after, q, keys.last()) == step_spec(before, q, keys.last()));
    }
}

/// What splicing a child under `p` reports, with `n` nodes in the arena: the error of finding
/// the key's position, an index past the end, or a full arena when a missing field needs a key.
pub open spec fn splice_error(nodes: Seq<NodeData>, p: NodeId, key: KeyModel, n: int) -> Option<Error> {
    match child_index_spec(nodes, p, key) {
        Err(e) => Some(e),
        Ok(None) => match key {
            KeyModel::Index(_) => Some(Error::IndexOutOfBounds),
            KeyModel::Field(_) => if n + 1 > arena_limit() {
                Some(Error::DanglingNode)
            } else {
                None
            },
        },
        Ok(Some(_)) => None,
    }
}

impl<'a, F: SexagesimalFloats + FloatDisplay> EditableDocument<'a, F> {
    /// What an edit at node `p` keeps: every other node, the generations, and everything but
    /// the arena; the nodes it adds are of the current generation.
    spec fn edits_at(&self, after: &Self, p: int) -> bool {
        &&& same_except(self.document.nodes@, after.document.nodes@, p)
        &&& self.gen@.len() == self.document.nodes@.len()
        &&& after.gen@.len() == after.document.nodes@.len()
        &&& forall|x: int| 0 <= x < self.gen@.len() ==> after.gen@[x] == self.gen@[x]
        &&& forall|x: int| self.gen@.len() <= x < after.gen@.len() ==> after.gen@[x] == self.era@
        &&& after.era == self.era
        &&& after.source == self.source
        &&& after.dirty == self.dirty
        &&& after.document.documents == self.document.documents
        &&& after.document.version == self.document.version
        &&& after.floats == self.floats
    }

    /// Points the entry or item that `key` names under `parent` at `new_child`, adding an
    /// entry for a missing field.
    fn splice_child(&mut self, parent: NodeId, key: &Key, new_child: NodeId) -> (r: Result<(), Error>)
        requires
            old(self).inv(),
            (parent.0 as int) < old(self).document.nodes@.len(),
            (new_child.0 as int) < old(self).document.nodes@.len(),
            old(self).gen@[parent.0 as int] < old(self).era@,
            old(self).gen@[new_child.0 as int] == old(self).era@,
        ensures
            final(self).inv(),
            old(self).edits_at(final(self), parent.0 as int),
            match r {
                Ok(()) => splice_error(old(self).document.nodes@, parent, key@, old(self).document.nodes@.len() as int) is None
                    && is_collection(old(self).document.nodes@, parent.0 as int)
                    && is_collection(final(self).document.nodes@, parent.0 as int)
                    && step_spec(final(self).document.nodes@, parent, key@) == Ok::<NodeId, Error>(new_child),
                Err(e) => splice_error(old(self).document.nodes@, parent, key@, old(self).document.nodes@.len() as int)
                    == Some(e) && *final(self) == *old(self),
            },
    {
        let index = match child_index(&self.document, parent, key) {
            Ok(i) => i,
            Err(e) => {
                return Err(e);
            },
        };
        let ghost before = self.document.nodes@;
        let ghost gen = self.gen@;
        let ghost pi = parent.0 as int;
        let p = parent.get() as usize;
        proof {
            assert(node_ranked(before, gen, pi));
        }
        match key {
            Key::Field(name) => match index {
                Some(i) => {
                    proof {
                        if let NodeKind::Mapping(es) = before[pi].kind {
                            crate::edit_path::lemma_first_named_bound(before, es@, name@);
                        }
                    }
                    let ghost s0 = *self;
                    match &mut self.document.nodes[p].kind {
                        NodeKind::Mapping(entries) => {
                            let k = entries[i].0;
                            entries.set(i, (k, new_child));
                        },
                        _ => {},
                    }
                    proof {
                        let after = self.document.nodes@;
                        let es_old = before[pi].kind->Mapping_0@;
                        let es_new = after[pi].kind->Mapping_0@;
                        assert(es_new == es_old.update(i as int, (es_old[i as int].0, new_child)));
                        assert forall|j: int| 0 <= j < es_new.len() implies (#[trigger] es_new[j]).0.0 < after.len()
                            && es_new[j].1.0 < after.len() && edge_down(gen, pi, es_new[j].0.0 as int)
                            && edge_down(gen, pi, es_new[j].1.0 as int) by {
                            assert(es_old[j] == es_old[j]);
                        }
                        assert(node_ranked(after, gen, pi));
                        self.lemma_spliced(&s0, pi);
                        let name_v = name@;
                        assert forall|j: int| 0 <= j < es_old.len() implies key_named(before, (#[trigger] es_old[j]).0, name_v)
                            == key_named(after, es_old[j].0, name_v) by {
                            assert(edge_down(gen, pi, es_old[j].0.0 as int));
                            assert(after[es_old[j].0.0 as int] == before[es_old[j].0.0 as int]);
                        }
                        assert forall|j: int| 0 <= j < es_old.len() implies (#[trigger] es_old[j]).0 == es_new[j].0 by {}
                        lemma_first_named_same(before, es_old, after, es_new, name_v);
                    }
                    Ok(())
                },
                None => {
                    let ghost s0 = *self;
                    let key_id = match self.build_key(name) {
                        Ok(k) => k,
                        Err(e) => {
                            return Err(e);
                        },
                    };
                    let ghost s1 = *self;
                    match &mut self.document.nodes[p].kind {
                        NodeKind::Mapping(entries) => {
                            entries.push((key_id, new_child));
                        },
                        _ => {},
                    }
                    proof {
                        let mid = s1.document.nodes@;
                        let after = self.document.nodes@;
                        let gen1 = s1.gen@;
                        assert(mid[pi] == before[pi]);
                        assert(gen1[pi] == gen[pi]);
                        let es_old = before[pi].kind->Mapping_0@;
                        let es_new = after[pi].kind->Mapping_0@;
                        assert(es_new == es_old.push((key_id, new_child)));
                        assert forall|j: int| 0 <= j < es_new.len() implies (#[trigger] es_new[j]).0.0 < after.len()
                            && es_new[j].1.0 < after.len() && edge_down(gen1, pi, es_new[j].0.0 as int)
                            && edge_down(gen1, pi, es_new[j].1.0 as int) by {
                            if j < es_old.len() {
                                assert(es_new[j] == es_old[j]);
                                assert(gen1[es_old[j].0.0 as int] == gen[es_old[j].0.0 as int]);
                                assert(gen1[es_old[j].1.0 as int] == gen[es_old[j].1.0 as int]);
                            } else {
                                assert(gen1[new_child.0 as int] == gen[new_child.0 as int]);
                            }
                        }
                        assert(node_ranked(after, gen1, pi));
                        self.lemma_spliced(&s1, pi);
                        Self::lemma_grows_then_edits(&s0, &s1, self, pi);
                        let name_v = name@;
                        assert forall|j: int| 0 <= j < es_old.len() implies key_named(before, (#[trigger] es_old[j]).0, name_v)
                            == key_named(after, es_old[j].0, name_v) by {
                            assert(edge_down(gen, pi, es_old[j].0.0 as int));
                            assert(after[es_old[j].0.0 as int] == before[es_old[j].0.0 as int]);
                        }
                        assert forall|j: int| 0 <= j < es_old.len() implies (#[trigger] es_old[j]).0 == es_old[j].0 by {}
                        lemma_first_named_same(before, es_old, after, es_old, name_v);
                        lemma_first_named_push(after, es_old, (key_id, new_child), name_v);
                        assert(after[key_id.0 as int] == mid[key_id.0 as int]);
                    }
                    Ok(())
                },
            },
            Key::Index(_) => match index {
                Some(i) => {
                    let ghost s0 = *self;
                    match &mut self.document.nodes[p].kind {
                        NodeKind::Sequence(items) => {
                            items.set(i, new_child);
                        },
                        _ => {},
                    }
                    proof {
                        let after = self.document.nodes@;
                        let it_old = before[pi].kind->Sequence_0@;
                        let it_new = after[pi].kind->Sequence_0@;
                        assert(it_new == it_old.update(i as int, new_child));
                        assert forall|j: int| 0 <= j < it_new.len() implies (#[trigger] it_new[j]).0 < after.len()
                            && edge_down(gen, pi, it_new[j].0 as int) by {
                            assert(it_old[j] == it_old[j]);
                        }
                        assert(node_ranked(after, gen, pi));
                        self.lemma_spliced(&s0, pi);
                    }
                    Ok(())
                },
                None => Err(Error::IndexOutOfBounds),
            },
        }
    }
}

impl<'a, F: SexagesimalFloats + FloatDisplay> EditableDocument<'a, F> {
    /// Changing node `p` into a collection with the same span, whose children lie down the
    /// ranking, keeps the invariant.
    proof fn lemma_spliced(&self, before: &Self, p: int)
        requires
            before.inv(),
            0 <= p < before.document.nodes@.len(),
            self.document.nodes@.len() == before.document.nodes@.len(),
            forall|x: int| 0 <= x < before.document.nodes@.len() && x != p ==> self.document.nodes@[x] == before.document.nodes@[x],
            self.document.nodes@[p].span == before.document.nodes@[p].span,
            is_collection(self.document.nodes@, p),
            node_ranked(self.document.nodes@, before.gen@, p),
            self.gen == before.gen,
            self.era == before.era,
            self.source == before.source,
            self.dirty == before.dirty,
            self.document.documents == before.document.documents,
            self.document.version == before.document.version,
            self.floats == before.floats,
        ensures
            self.inv(),
            before.edits_at(self, p),
    {
        let nodes = self.document.nodes@;
        let old_nodes = before.document.nodes@;
        let gen = self.gen@;
        assert forall|k: int| 0 <= k < nodes.len() implies #[trigger] node_ranked(nodes, gen, k) by {
            if k != p {
                assert(nodes[k] == old_nodes[k]);
                assert(node_ranked(old_nodes, gen, k));
            }
        }
        assert forall|k: int| 0 <= k < nodes.len() implies match (#[trigger] nodes[k]).kind {
            NodeKind::Alias(t) => (t.0 as int) < k,
            _ => true,
        } by {
            if k != p {
                assert(nodes[k] == old_nodes[k]);
            }
        }
        assert forall|k: int| 0 <= k < nodes.len() implies match (#[trigger] nodes[k]).span {
            Some(sp) => sp.start <= sp.end && on_boundary(self.source@, sp.start as int) && on_boundary(self.source@, sp.end as int),
            None => true,
        } by {
            if k != p {
                assert(nodes[k] == old_nodes[k]);
            }
        }
    }

    proof fn lemma_grows_then_edits(a: &Self, b: &Self, c: &Self, p: int)
        requires
            a.grows(b),
            b.edits_at(c, p),
            0 <= p < a.document.nodes@.len(),
        ensures
            a.edits_at(c, p),
    {
        assert forall|x: int| 0 <= x < a.document.nodes@.len() && x != p implies c.document.nodes@[x] == a.document.nodes@[x] by {
            assert(b.document.nodes@[x] == a.document.nodes@[x]);
        }
        assert forall|x: int| a.gen@.len() <= x < c.gen@.len() implies c.gen@[x] == a.era@ by {
            if x < b.gen@.len() {
                assert(c.gen@[x] == b.gen@[x]);
            }
        }
        assert forall|x: int| 0 <= x < a.gen@.len() implies c.gen@[x] == a.gen@[x] by {
            assert(b.gen@[x] == a.gen@[x]);
        }
    }
}

/// What [`EditableDocument::set`] reports for writing `v` at `keys` from `root`: a full arena
/// first (the new value is built before the path is followed), then an error following the
/// keys up to the last one, then what splicing under the node they reach reports.
pub open spec fn set_error(nodes: Seq<NodeData>, root: NodeId, keys: Seq<KeyModel>, v: EditValue) -> Option<Error> {
    if nodes.len() + value_size(v) > arena_limit() {
        Some(Error::DanglingNode)
    } else if keys.len() == 0 {
        None
    } else {
        match trail_spec(nodes, root, keys.drop_last()) {
            Err(e) => Some(e),
            Ok(t) => splice_error(nodes, t.last(), keys.last(), (nodes.len() + value_size(v)) as int),
        }
    }
}

/// Where a step is decided, an arena that keeps the nodes below `n`, those referring only below
/// `n`, decides it alike.
proof fn lemma_child_index_kept(before: Seq<NodeData>, after: Seq<NodeData>, gen: Seq<nat>, p: NodeId, key: KeyModel)
    requires
        ranked(before, gen),
        (p.0 as int) < before.len(),
        same_except(before, after, -1),
    ensures
        child_index_spec(after, p, key) == child_index_spec(before, p, key),
        step_spec(after, p, key) == step_spec(before, p, key),
{
    assert(after[p.0 as int] == before[p.0 as int]);
    assert(node_ranked(before, gen, p.0 as int));
    if let (NodeKind::Mapping(entries), KeyModel::Field(name)) = (before[p.0 as int].kind, key) {
        assert forall|j: int| 0 <= j < entries@.len() implies key_named(before, (#[trigger] entries@[j]).0, name)
            == key_named(after, entries@[j].0, name) by {
            assert(after[entries@[j].0.0 as int] == before[entries@[j].0.0 as int]);
        }
        assert forall|j: int| 0 <= j < entries@.len() implies (#[trigger] entries@[j]).0 == entries@[j].0 by {}
        lemma_first_named_same(before, entries@, after, entries@, name);
    }
}

/// Following keys gives the same trail, or the same error, in an arena that only adds nodes.
proof fn lemma_trail_kept(before: Seq<NodeData>, after: Seq<NodeData>, gen: Seq<nat>, root: NodeId, keys: Seq<KeyModel>)
    requires
        ranked(before, gen),
        (root.0 as int) < before.len(),
        same_except(before, after, -1),
    ensures
        trail_spec(after, root, keys) == trail_spec(before, root, keys),
    decreases keys.len(),
{
    if keys.len() > 0 {
        lemma_trail_kept(before, after, gen, root, keys.drop_last());
        lemma_trail_descends(before, gen, root, keys.drop_last());
        if let Ok(t0) = trail_spec(before, root, keys.drop_last()) {
            lemma_child_index_kept(before, after, gen, t0.last(), keys.last());
        }
    }
}

impl<'a, F: SexagesimalFloats + FloatDisplay> EditableDocument<'a, F> {
    /// Marks each node of `trail` dirty.
    fn mark_dirty(&mut self, trail: &Vec<NodeId>)
        ensures
            final(self).dirty@.to_set() == old(self).dirty@.to_set() + trail@.to_set(),
            final(self).source == old(self).source,
            final(self).document == old(self).document,
            final(self).floats == old(self).floats,
            final(self).gen == old(self).gen,
            final(self).era == old(self).era,
    {
        let mut i: usize = 0;
        while i < trail.len()
            invariant
                i <= trail@.len(),
                self.dirty@.to_set() == old(self).dirty@.to_set() + trail@.take(i as int).to_set(),
                self.source == old(self).source,
                self.document == old(self).document,
                self.floats == old(self).floats,
                self.gen == old(self).gen,
                self.era == old(self).era,
            decreases trail@.len() - i,
        {
            let id = trail[i];
            let mut seen = false;
            let mut k: usize = 0;
            while k < self.dirty.len()
                invariant
                    k <= self.dirty@.len(),
                    seen == exists|j: int| 0 <= j < k && self.dirty@[j] == id,
                    i < trail@.len(),
                    id == trail@[i as int],
                    self.dirty@.to_set() == old(self).dirty@.to_set() + trail@.take(i as int).to_set(),
                    self.source == old(self).source,
                    self.document == old(self).document,
                    self.floats == old(self).floats,
                    self.gen == old(self).gen,
                    self.era == old(self).era,
                decreases self.dirty@.len() - k,
            {
                if self.dirty[k] == id {
                    seen = true;
                }
                k = k + 1;
            }
            let ghost before = self.dirty@;
            if !seen {
                self.dirty.push(id);
            }
            proof {
                assert(trail@.take(i + 1) =~= trail@.take(i as int).push(id));
                assert(trail@.take(i + 1).to_set() =~= trail@.take(i as int).to_set().insert(id)) by {
                    assert forall|x: NodeId| trail@.take(i + 1).to_set().contains(x) <==> trail@.take(i as int).to_set().insert(id).contains(x) by {
                        if trail@.take(i + 1).contains(x) {
                            let j = choose|j: int| 0 <= j < i + 1 && #[trigger] trail@.take(i + 1)[j] == x;
                            if j < i {
                                assert(trail@.take(i as int)[j] == x);
                            }
                        }
                        if trail@.take(i as int).contains(x) {
                            let j = choose|j: int| 0 <= j < i && #[trigger] trail@.take(i as int)[j] == x;
                            assert(trail@.take(i + 1)[j] == x);
                        }
                        if x == id {
                            assert(trail@.take(i + 1)[i as int] == x);
                        }
                    }
                }
                if seen {
                    let j = choose|j: int| 0 <= j < k && #[trigger] self.dirty@[j] == id;
                    assert(self.dirty@.contains(id));
                    assert(self.dirty@.to_set().contains(id));
                    assert(self.dirty@.to_set() =~= old(self).dirty@.to_set() + trail@.take(i + 1).to_set());
                } else {
                    assert(self.dirty@ == before.push(id));
                    before.lemma_push_to_set_commute(id);
                    assert(self.dirty@.to_set() =~= old(self).dirty@.to_set() + trail@.take(i + 1).to_set());
                }
            }
            i = i + 1;
        }
        proof {
            assert(trail@.take(i as int) =~= trail@);
        }
    }

    /// Replaces the value at `path`, adding a missing mapping field; a missing sequence index is
    /// an error ([`Self::push`] extends a sequence). The root path replaces the whole document.
    pub fn set(&mut self, path: &Path, value: EditValue) -> (r: Result<(), Error>)
        requires
            old(self).inv(),
        ensures
            final(self).inv(),
            final(self).source_text() == old(self).source_text(),
            match r {
                Ok(()) => {
                    &&& set_error(old(self).nodes(), old(self).root_id(), path@, value) is None
                    &&& resolve_spec(final(self).nodes(), final(self).root_id(), path@) matches Ok(n)
                    &&& builds(final(self).nodes(), n, value, old(self).nodes().len() as int)
                    &&& final(self).dirty_nodes() == old(self).dirty_nodes() + if path@.len() == 0 {
                        set![final(self).root_id()]
                    } else {
                        trail_spec(old(self).nodes(), old(self).root_id(), path@.drop_last())->Ok_0.to_set()
                    }
                    &&& path@.len() > 0 ==> final(self).root_id() == old(self).root_id()
                    &&& path@.len() > 0 ==> same_except(
                        old(self).nodes(),
                        final(self).nodes(),
                        trail_spec(old(self).nodes(), old(self).root_id(), path@.drop_last())->Ok_0.last().0 as int,
                    )
                    &&& path@.len() == 0 ==> same_except(old(self).nodes(), final(self).nodes(), -1)
                },
                Err(e) => {
                    &&& set_error(old(self).nodes(), old(self).root_id(), path@, value) == Some(e)
                    &&& final(self).dirty_nodes() == old(self).dirty_nodes()
                    &&& final(self).root_id() == old(self).root_id()
                    &&& same_except(old(self).nodes(), final(self).nodes(), -1)
                },
            },
    {
        self.era = Ghost(self.era@ + 1);
        let ghost s0 = *self;
        let ghost n0 = self.document.nodes@.len() as int;
        let new_id = match self.build(&value) {
            Ok(id) => id,
            Err(e) => {
                return Err(e);
            },
        };
        let ghost s1 = *self;
        proof {
            assert(same_except(s0.document.nodes@, s1.document.nodes@, -1));
        }
        match path.split_last() {
            None => {
                self.document.documents.set(0, new_id);
                let mut one: Vec<NodeId> = Vec::new();
                one.push(new_id);
                self.mark_dirty(&one);
                proof {
                    let nodes = self.document.nodes@;
                    assert(nodes == s1.document.nodes@);
                    assert(trail_spec(nodes, new_id, path@) == Ok::<Seq<NodeId>, Error>(seq![new_id]));
                }
                Ok(())
            },
            Some((parent_path, key)) => {
                let root = match self.root() {
                    Ok(r) => r,
                    Err(e) => {
                        return Err(e);
                    },
                };
                proof {
                    lemma_trail_kept(s0.document.nodes@, s1.document.nodes@, s0.gen@, root, parent_path@);
                }
                let trail = match resolve_trail(&self.document, root, &parent_path) {
                    Ok(t) => t,
                    Err(e) => {
                        assert(s0.inv());
                        assert(root == old(self).root_id());
                        assert(old(self).nodes() == s0.document.nodes@);
                        assert(path@.drop_last() == parent_path@);
                        assert(trail_spec(old(self).nodes(), root, parent_path@) == Err::<Seq<NodeId>, Error>(e));
                        return Err(e);
                    },
                };
                let ghost t = trail@;
                proof {
                    lemma_trail_descends(s0.document.nodes@, s0.gen@, root, parent_path@);
                }
                let parent = trail[trail.len() - 1];
                let ghost pi = parent.0 as int;
                proof {
                    lemma_child_index_kept(s0.document.nodes@, s1.document.nodes@, s0.gen@, parent, key@);
                    assert(s1.gen@[pi] == s0.gen@[pi]);
                }
                match self.splice_child(parent, &key, new_id) {
                    Ok(()) => {},
                    Err(e) => {
                        return Err(e);
                    },
                }
                let ghost s2 = *self;
                proof {
                    lemma_trail_descends(s1.document.nodes@, s1.gen@, root, parent_path@);
                    assert forall|j: int| 0 <= j < parent_path@.len() implies (#[trigger] trail_spec(s1.document.nodes@, root, parent_path@)->Ok_0[j]).0 != pi by {
                        assert(edge_down(s1.gen@, t[j].0 as int, t[t.len() - 1].0 as int));
                    }
                    lemma_trail_frame(s1.document.nodes@, s2.document.nodes@, s1.gen@, root, parent_path@, pi);
                    assert(path@.drop_last() == parent_path@);
                    assert(trail_spec(s2.document.nodes@, root, path@) == Ok::<Seq<NodeId>, Error>(t.push(new_id)));
                    assert forall|x: int| n0 <= x < s1.document.nodes@.len() implies s2.document.nodes@[x] == s1.document.nodes@[x] by {}
                    lemma_builds_frame(s1.document.nodes@, s2.document.nodes@, new_id, value, n0);
                }
                self.mark_dirty(&trail);
                Ok(())
            },
        }
    }
}

/// What [`EditableDocument::remove`] reports for `keys` from `root`: an empty path, an error
/// following the keys up to the last one or finding the last one's position, or a missing entry.
pub open spec fn remove_error(nodes: Seq<NodeData>, root: NodeId, keys: Seq<KeyModel>) -> Option<Error> {
    if keys.len() == 0 {
        Some(Error::EmptyPath)
    } else {
        match trail_spec(nodes, root, keys.drop_last()) {
            Err(e) => Some(e),
            Ok(t) => match child_index_spec(nodes, t.last(), keys.last()) {
                Err(e) => Some(e),
                Ok(None) => Some(Error::KeyNotFound),
                Ok(Some(_)) => None,
            },
        }
    }
}

/// The node and position that `keys` name from `root`: the node the keys but the last lead to,
/// and the position of the last one in it.
pub open spec fn removal_site(nodes: Seq<NodeData>, root: NodeId, keys: Seq<KeyModel>) -> Option<(NodeId, int)> {
    match trail_spec(nodes, root, keys.drop_last()) {
        Ok(t) => match child_index_spec(nodes, t.last(), keys.last()) {
            Ok(Some(i)) => Some((t.last(), i)),
            _ => None,
        },
        Err(_) => None,
    }
}

/// `after` is `before` with the entry or item at position `i` taken out.
pub open spec fn removed_at(before: NodeData, after: NodeData, i: int) -> bool {
    &&& match (before.kind, after.kind) {
        (NodeKind::Mapping(a), NodeKind::Mapping(b)) => b@ == a@.remove(i),
        (NodeKind::Sequence(a), NodeKind::Sequence(b)) => b@ == a@.remove(i),
        _ => false,
    }
    &&& after.span == before.span
}

/// What [`EditableDocument::push`] reports for appending `v` at `keys` from `root`: a full
/// arena first, then an error following the keys, then a node there that is not a sequence.
pub open spec fn push_error(nodes: Seq<NodeData>, root: NodeId, keys: Seq<KeyModel>, v: EditValue) -> Option<Error> {
    if nodes.len() + value_size(v) > arena_limit() {
        Some(Error::DanglingNode)
    } else {
        match trail_spec(nodes, root, keys) {
            Err(e) => Some(e),
            Ok(t) => if nodes[t.last().0 as int].kind is Sequence {
                None
            } else {
                Some(Error::TypeMismatch)
            },
        }
    }
}

impl<'a, F: SexagesimalFloats + FloatDisplay> EditableDocument<'a, F> {
    /// Removes the entry or item at `path` from its mapping or sequence.
    pub fn remove(&mut self, path: &Path) -> (r: Result<(), Error>)
        requires
            old(self).inv(),
        ensures
            final(self).inv(),
            final(self).source_text() == old(self).source_text(),
            final(self).root_id() == old(self).root_id(),
            match r {
                Ok(()) => {
                    &&& remove_error(old(self).nodes(), old(self).root_id(), path@) is None
                    &&& removal_site(old(self).nodes(), old(self).root_id(), path@) matches Some((p, i))
                    &&& same_except(old(self).nodes(), final(self).nodes(), p.0 as int)
                    &&& final(self).nodes().len() == old(self).nodes().len()
                    &&& removed_at(old(self).nodes()[p.0 as int], final(self).nodes()[p.0 as int], i)
                    &&& final(self).dirty_nodes() == old(self).dirty_nodes() + trail_spec(
                        old(self).nodes(),
                        old(self).root_id(),
                        path@.drop_last(),
                    )->Ok_0.to_set()
                },
                Err(e) => {
                    &&& remove_error(old(self).nodes(), old(self).root_id(), path@) == Some(e)
                    &&& *final(self) == *old(self)
                },
            },
    {
        let (parent_path, key) = match path.split_last() {
            Some(pk) => pk,
            None => {
                return Err(Error::EmptyPath);
            },
        };
        let root = match self.root() {
            Ok(r) => r,
            Err(e) => {
                return Err(e);
            },
        };
        let trail = match resolve_trail(&self.document, root, &parent_path) {
            Ok(t) => t,
            Err(e) => {
                return Err(e);
            },
        };
        proof {
            lemma_trail_descends(self.document.nodes@, self.gen@, root, parent_path@);
        }
        let parent = trail[trail.len() - 1];
        let index = match child_index(&self.document, parent, &key) {
            Ok(Some(i)) => i,
            Ok(None) => {
                return Err(Error::KeyNotFound);
            },
            Err(e) => {
                return Err(e);
            },
        };
        let ghost before = self.document.nodes@;
        let ghost gen = self.gen@;
        let ghost pi = parent.0 as int;
        let ghost s0 = *self;
        let p = parent.get() as usize;
        proof {
            assert(node_ranked(before, gen, pi));
            if let (NodeKind::Mapping(es), KeyModel::Field(name)) = (before[pi].kind, key@) {
                crate::edit_path::lemma_first_named_bound(before, es@, name);
            }
        }
        match &mut self.document.nodes[p].kind {
            NodeKind::Mapping(entries) => {
                entries.remove(index);
            },
            NodeKind::Sequence(items) => {
                items.remove(index);
            },
            _ => {},
        }
        proof {
            let after = self.document.nodes@;
            match before[pi].kind {
                NodeKind::Mapping(es) => {
                    let es_new = after[pi].kind->Mapping_0@;
                    assert forall|j: int| 0 <= j < es_new.len() implies (#[trigger] es_new[j]).0.0 < after.len()
                        && es_new[j].1.0 < after.len() && edge_down(gen, pi, es_new[j].0.0 as int)
                        && edge_down(gen, pi, es_new[j].1.0 as int) by {
                        if j < index {
                            assert(es_new[j] == es@[j]);
                        } else {
                            assert(es_new[j] == es@[j + 1]);
                        }
                    }
                },
                NodeKind::Sequence(it) => {
                    let it_new = after[pi].kind->Sequence_0@;
                    assert forall|j: int| 0 <= j < it_new.len() implies (#[trigger] it_new[j]).0 < after.len()
                        && edge_down(gen, pi, it_new[j].0 as int) by {
                        if j < index {
                            assert(it_new[j] == it@[j]);
                        } else {
                            assert(it_new[j] == it@[j + 1]);
                        }
                    }
                },
                _ => {},
            }
            assert(node_ranked(after, gen, pi));
            self.lemma_spliced(&s0, pi);
        }
        self.mark_dirty(&trail);
        Ok(())
    }

    /// Appends `value` to the sequence at `path_to_seq`.
    pub fn push(&mut self, path_to_seq: &Path, value: EditValue) -> (r: Result<(), Error>)
        requires
            old(self).inv(),
        ensures
            final(self).inv(),
            final(self).source_text() == old(self).source_text(),
            final(self).root_id() == old(self).root_id(),
            match r {
                Ok(()) => {
                    &&& push_error(old(self).nodes(), old(self).root_id(), path_to_seq@, value) is None
                    &&& resolve_spec(old(self).nodes(), old(self).root_id(), path_to_seq@) matches Ok(s)
                    &&& old(self).nodes()[s.0 as int].kind matches NodeKind::Sequence(items)
                    &&& resolve_spec(
                        final(self).nodes(),
                        final(self).root_id(),
                        path_to_seq@.push(KeyModel::Index(items@.len())),
                    ) matches Ok(n)
                    &&& builds(final(self).nodes(), n, value, old(self).nodes().len() as int)
                    &&& final(self).nodes()[s.0 as int].kind matches NodeKind::Sequence(after_items)
                    &&& after_items@ == items@.push(n)
                    &&& final(self).dirty_nodes() == old(self).dirty_nodes() + trail_spec(
                        old(self).nodes(),
                        old(self).root_id(),
                        path_to_seq@,
                    )->Ok_0.to_set()
                },
                Err(e) => {
                    &&& push_error(old(self).nodes(), old(self).root_id(), path_to_seq@, value) == Some(e)
                    &&& final(self).dirty_nodes() == old(self).dirty_nodes()
                    &&& same_except(old(self).nodes(), final(self).nodes(), -1)
                },
            },
    {
        self.era = Ghost(self.era@ + 1);
        let ghost s0 = *self;
        let ghost n0 = self.document.nodes@.len() as int;
        let new_id = match self.build(&value) {
            Ok(id) => id,
            Err(e) => {
                return Err(e);
            },
        };
        let ghost s1 = *self;
        proof {
            assert(same_except(s0.document.nodes@, s1.document.nodes@, -1));
        }
        let root = match self.root() {
            Ok(r) => r,
            Err(e) => {
                return Err(e);
            },
        };
        proof {
            lemma_trail_kept(s0.document.nodes@, s1.document.nodes@, s0.gen@, root, path_to_seq@);
            lemma_trail_descends(s0.document.nodes@, s0.gen@, root, path_to_seq@);
        }
        let trail = match resolve_trail(&self.document, root, path_to_seq) {
            Ok(t) => t,
            Err(e) => {
                return Err(e);
            },
        };
        let ghost t = trail@;
        let seq_id = trail[trail.len() - 1];
        let ghost pi = seq_id.0 as int;
        let p = seq_id.get() as usize;
        proof {
            assert(s1.document.nodes@[pi] == s0.document.nodes@[pi]);
            assert(s1.gen@[pi] == s0.gen@[pi]);
            assert(node_ranked(s1.document.nodes@, s1.gen@, pi));
        }
        let is_seq = match &self.document.nodes[p].kind {
            NodeKind::Sequence(_) => true,
            _ => false,
        };
        if !is_seq {
            return Err(Error::TypeMismatch);
        }
        let ghost before = self.document.nodes@;
        let ghost gen = self.gen@;
        match &mut self.document.nodes[p].kind {
            NodeKind::Sequence(items) => {
                items.push(new_id);
            },
            _ => {},
        }
        proof {
            let after = self.document.nodes@;
            let it = before[pi].kind->Sequence_0@;
            let it_new = after[pi].kind->Sequence_0@;
            assert(it_new == it.push(new_id));
            assert forall|j: int| 0 <= j < it_new.len() implies (#[trigger] it_new[j]).0 < after.len()
                && edge_down(gen, pi, it_new[j].0 as int) by {
                if j < it.len() {
                    assert(it_new[j] == it[j]);
                }
            }
            assert(node_ranked(after, gen, pi));
            self.lemma_spliced(&s1, pi);
            let s2 = *self;
            lemma_trail_descends(s1.document.nodes@, s1.gen@, root, path_to_seq@);
            assert forall|j: int| 0 <= j < path_to_seq@.len() implies (#[trigger] trail_spec(s1.document.nodes@, root, path_to_seq@)->Ok_0[j]).0 != pi by {
                assert(edge_down(s1.gen@, t[j].0 as int, t[t.len() - 1].0 as int));
            }
            lemma_trail_frame(s1.document.nodes@, s2.document.nodes@, s1.gen@, root, path_to_seq@, pi);
            let keys = path_to_seq@.push(KeyModel::Index(it.len()));
            assert(keys.drop_last() == path_to_seq@);
            assert(keys.last() == KeyModel::Index(it.len()));
            assert(step_spec(s2.document.nodes@, seq_id, KeyModel::Index(it.len())) == Ok::<NodeId, Error>(new_id));
            assert(trail_spec(s2.document.nodes@, root, keys) == Ok::<Seq<NodeId>, Error>(t.push(new_id)));
            assert forall|x: int| n0 <= x < s1.document.nodes@.len() implies s2.document.nodes@[x] == s1.document.nodes@[x] by {}
            lemma_builds_frame(s1.document.nodes@, s2.document.nodes@, new_id, value, n0);
        }
        self.mark_dirty(&trail);
        Ok(())
    }
}

/// The character position at which byte offset `b` of `s` falls.
pub open spec fn char_pos(s: Seq<char>, b: int) -> int {
    choose|k: int| 0 <= k <= s.len() && #[trigger] byte_len(s.take(k)) == b
}

/// The source text a span covers.
pub open spec fn span_text(source: Seq<char>, sp: Span) -> Seq<char> {
    source.subrange(char_pos(source, sp.start as int), char_pos(source, sp.end as int))
}

/// Lines joined by line breaks, each non-empty one behind spaces: `first` of them for the
/// first line, `shift` for the others.
pub open spec fn shifted_lines(lines: Seq<Seq<char>>, first: nat, shift: nat) -> Seq<char>
    decreases lines.len(),
{
    if lines.len() == 0 {
        Seq::empty()
    } else {
        let k = lines.len() - 1;
        let sep = if k > 0 { seq!['\n'] } else { Seq::<char>::empty() };
        let line = lines.last();
        let body = if line.len() == 0 {
            Seq::<char>::empty()
        } else {
            spaces(if k == 0 { first } else { shift }) + line
        };
        shifted_lines(lines.drop_last(), first, shift) + sep + body
    }
}

/// `out` ending with a line break, one added when it does not.
pub open spec fn with_newline(out: Seq<char>) -> Seq<char> {
    if out.len() > 0 && out.last() == '\n' {
        out
    } else {
        out.push('\n')
    }
}

/// Two more columns of indentation, stopping at the largest `usize`.
pub open spec fn deeper(indent: nat) -> nat {
    if indent + 2 <= usize::MAX {
        indent + 2
    } else {
        usize::MAX as nat
    }
}

/// Node `id` has a source span and no edit touched it: its text comes from the source.
pub open spec fn clean_node(nodes: Seq<NodeData>, dirty: Seq<NodeId>, id: NodeId) -> bool {
    &&& (id.0 as int) < nodes.len()
    &&& nodes[id.0 as int].span is Some
    &&& !dirty.contains(id)
}

/// `out` followed by the text of span `sp` moved to column `indent`: the first line starts at
/// the larger of `indent` and the span's own column, and every later line moves right by as
/// much as `indent` lies right of that column; the result ends with a line break.
pub open spec fn blit_text(source: Seq<char>, out: Seq<char>, sp: Span, indent: nat) -> Seq<char> {
    let col: nat = if sp.column >= 1 { (sp.column - 1) as nat } else { 0 };
    let shift: nat = if indent >= col { (indent - col) as nat } else { 0 };
    with_newline(out + shifted_lines(split_char(span_text(source, sp), '\n'), col + shift, shift))
}

/// What rendering an edited document reads: the source, the arena, the dirty nodes, the
/// ranking that bounds the recursion, and how floats print.
pub struct RenderView {
    pub source: Seq<char>,
    pub nodes: Seq<NodeData>,
    pub dirty: Seq<NodeId>,
    pub gen: Seq<nat>,
    pub era: nat,
    pub table: Seq<(Seq<char>, Seq<char>)>,
}

impl RenderView {
    /// Node `id` has a source span and no edit touched it: its text comes from the source.
    pub open spec fn clean(self, id: NodeId) -> bool {
        clean_node(self.nodes, self.dirty, id)
    }

    /// The source text of a clean node, moved to column `indent`: the first line starts at
    /// the larger of `indent` and the node's own column, and every later line moves right by
    /// as much as `indent` lies right of that column; `out` then ends with a line break.
    pub open spec fn blit_out(self, out: Seq<char>, sp: Span, indent: nat) -> Seq<char> {
        blit_text(self.source, out, sp, indent)
    }

    /// A node written inline after `out`: a clean one as its source text, any other as it
    /// prints inline.
    pub open spec fn leaf_out(self, out: Seq<char>, id: NodeId) -> Seq<char> {
        if self.clean(id) {
            out + span_text(self.source, self.nodes[id.0 as int].span->Some_0)
        } else if (id.0 as int) < self.nodes.len() {
            out + inline_text(self.nodes, self.nodes[id.0 as int], self.table)
        } else {
            out
        }
    }

    /// Node `id` written in block style at `indent` after `out`: a clean node as its source
    /// text, anything else rebuilt from its children by the same rule.
    pub open spec fn node_out(self, out: Seq<char>, id: NodeId, indent: nat) -> Seq<char>
        decreases self.era - self.gen[id.0 as int], id.0, 1int, 0int,
    {
        if self.clean(id) {
            self.blit_out(out, self.nodes[id.0 as int].span->Some_0, indent)
        } else if (id.0 as int) < self.nodes.len() {
            let prefix = spaces(indent);
            match self.nodes[id.0 as int].kind {
                NodeKind::Mapping(entries) => if entries@.len() == 0 {
                    out + prefix + "{}\n"@
                } else {
                    self.entries_out(out, entries@, id, indent)
                },
                NodeKind::Sequence(items) => if items@.len() == 0 {
                    out + prefix + "[]\n"@
                } else {
                    self.items_out(out, items@, id, indent)
                },
                _ => out + prefix + inline_text(self.nodes, self.nodes[id.0 as int], self.table) + seq!['\n'],
            }
        } else {
            out
        }
    }

    /// A child of `parent` that a block is written for: a non-empty collection, followed only
    /// down the ranking.
    pub open spec fn descends(self, parent: NodeId, child: NodeId) -> bool {
        &&& (child.0 as int) < self.nodes.len()
        &&& (parent.0 as int) < self.gen.len()
        &&& (child.0 as int) < self.gen.len()
        &&& self.gen[child.0 as int] <= self.era
        &&& edge_down(self.gen, parent.0 as int, child.0 as int)
    }

    /// Mapping entries written at `indent` after `out`: the key inline, then `:` and the
    /// value's block for a non-empty collection, `: ` and the value inline otherwise.
    pub open spec fn entries_out(self, out: Seq<char>, entries: Seq<(NodeId, NodeId)>, parent: NodeId, indent: nat) -> Seq<char>
        decreases self.era - self.gen[parent.0 as int], parent.0, 0int, entries.len(),
    {
        if entries.len() == 0 {
            out
        } else {
            let before = self.entries_out(out, entries.drop_last(), parent, indent);
            let (k, v) = entries.last();
            let keyed = self.leaf_out(before + spaces(indent), k);
            if (v.0 as int) < self.nodes.len() && nonempty_collection(self.nodes[v.0 as int].kind) {
                if self.descends(parent, v) {
                    self.node_out(keyed + ":\n"@, v, deeper(indent))
                } else {
                    keyed + ":\n"@
                }
            } else {
                self.leaf_out(keyed + ": "@, v) + seq!['\n']
            }
        }
    }

    /// Sequence items written at `indent` after `out`: `-` and the item's block for a
    /// non-empty collection, `- ` and the item inline otherwise.
    pub open spec fn items_out(self, out: Seq<char>, items: Seq<NodeId>, parent: NodeId, indent: nat) -> Seq<char>
        decreases self.era - self.gen[parent.0 as int], parent.0, 0int, items.len(),
    {
        if items.len() == 0 {
            out
        } else {
            let before = self.items_out(out, items.drop_last(), parent, indent);
            let it = items.last();
            if (it.0 as int) < self.nodes.len() && nonempty_collection(self.nodes[it.0 as int].kind) {
                if self.descends(parent, it) {
                    self.node_out(before + spaces(indent) + "-\n"@, it, deeper(indent))
                } else {
                    before + spaces(indent) + "-\n"@
                }
            } else {
                self.leaf_out(before + spaces(indent) + "- "@, it) + seq!['\n']
            }
        }
    }
}

/// The character position at which byte offset `b` falls, given the byte offset of every
/// position of `chars`.
fn char_pos_of(chars: &Vec<char>, offs: &Vec<usize>, b: usize) -> (k: usize)
    requires
        offs@.len() == chars@.len() + 1,
        forall|i: int| 0 <= i <= chars@.len() ==> #[trigger] offs@[i] == byte_len(chars@.take(i)),
        on_boundary(chars@, b as int),
    ensures
        k as int == char_pos(chars@, b as int),
        k <= chars@.len(),
        byte_len(chars@.take(k as int)) == b,
{
    let mut k: usize = 0;
    while k < offs.len()
        invariant
            k <= offs@.len(),
            offs@.len() == chars@.len() + 1,
            forall|i: int| 0 <= i <= chars@.len() ==> #[trigger] offs@[i] == byte_len(chars@.take(i)),
            forall|j: int| 0 <= j < k ==> offs@[j] != b,
        decreases offs@.len() - k,
    {
        if offs[k] == b {
            proof {
                let c = char_pos(chars@, b as int);
                assert(byte_len(chars@.take(k as int)) == b);
                if c < k {
                    crate::text::lemma_byte_len_strict(chars@, c, k as int);
                } else if c > k {
                    crate::text::lemma_byte_len_strict(chars@, k as int, c);
                }
            }
            return k;
        }
        k = k + 1;
    }
    proof {
        let w = choose|w: int| 0 <= w <= chars@.len() && #[trigger] byte_len(chars@.take(w)) == b;
        assert(offs@[w] == b);
    }
    0
}

/// Appends `line` to `out`.
fn push_line(out: &mut Vec<char>, line: &Vec<char>)
    ensures
        final(out)@ == old(out)@ + line@,
{
    crate::text::push_chars(out, line);
}

impl<'a, F: SexagesimalFloats + FloatDisplay> EditableDocument<'a, F> {
    /// What rendering reads, with floats printing as `table` says.
    pub closed spec fn view_with(&self, table: Seq<(Seq<char>, Seq<char>)>) -> RenderView {
        RenderView {
            source: self.source@,
            nodes: self.document.nodes@,
            dirty: self.dirty@,
            gen: self.gen@,
            era: self.era@,
            table,
        }
    }

    /// The rendering of an edited document: its root in block style, clean nodes copied from
    /// the source.
    pub closed spec fn rendered(&self, table: Seq<(Seq<char>, Seq<char>)>) -> Seq<char> {
        self.view_with(table).node_out(Seq::empty(), self.root_id(), 0)
    }

    fn is_clean(&self, id: NodeId) -> (r: bool)
        ensures
            r == clean_node(self.document.nodes@, self.dirty@, id),
    {
        if self.document.span(id).is_none() {
            return false;
        }
        let mut k: usize = 0;
        while k < self.dirty.len()
            invariant
                k <= self.dirty@.len(),
                forall|j: int| 0 <= j < k ==> self.dirty@[j] != id,
            decreases self.dirty@.len() - k,
        {
            if self.dirty[k] == id {
                proof {
                    assert(self.dirty@.contains(id));
                }
                return false;
            }
            k = k + 1;
        }
        true
    }

    /// Appends the source text of span `sp`, moved to column `indent`.
    fn blit_indented(&self, sp: Span, indent: usize, out: &mut Vec<char>, chars: &Vec<char>, offs: &Vec<usize>)
        requires
            chars@ == self.source@,
            offs@.len() == chars@.len() + 1,
            forall|i: int| 0 <= i <= chars@.len() ==> #[trigger] offs@[i] == byte_len(chars@.take(i)),
            sp.start <= sp.end,
            on_boundary(self.source@, sp.start as int),
            on_boundary(self.source@, sp.end as int),
        ensures
            final(out)@ == blit_text(self.source@, old(out)@, sp, indent as nat),
    {
        let col: usize = if sp.column >= 1 { sp.column - 1 } else { 0 };
        let shift: usize = if indent >= col { indent - col } else { 0 };
        let a = char_pos_of(chars, offs, sp.start);
        let b = char_pos_of(chars, offs, sp.end);
        proof {
            if b < a {
                crate::text::lemma_byte_len_strict(chars@, b as int, a as int);
            }
        }
        let first = col + shift;
        let text = crate::charseq::copy_range(chars, a, b);
        let lines = crate::charseq::split_on(&text, '\n');
        let ghost ls = crate::charseq::pieces(lines@);
        let ghost start = out@;
        let mut i: usize = 0;
        while i < lines.len()
            invariant
                i <= lines@.len(),
                ls == crate::charseq::pieces(lines@),
                first == col + shift,
                out@ == start + shifted_lines(ls.take(i as int), (col + shift) as nat, shift as nat),
            decreases lines@.len() - i,
        {
            proof {
                assert(ls.take(i + 1).drop_last() =~= ls.take(i as int));
                assert(ls.take(i + 1).last() == lines@[i as int]@);
            }
            if i > 0 {
                out.push('\n');
            }
            if lines[i].len() > 0 {
                if i == 0 {
                    crate::pretty::push_spaces(out, first);
                } else {
                    crate::pretty::push_spaces(out, shift);
                }
                push_line(out, &lines[i]);
            }
            i = i + 1;
            assert(out@ =~= start + shifted_lines(ls.take(i as int), (col + shift) as nat, shift as nat));
        }
        proof {
            assert(ls.take(i as int) =~= ls);
        }
        if !(out.len() > 0 && out[out.len() - 1] == '\n') {
            out.push('\n');
        }
    }
}

impl<'a, F: SexagesimalFloats + FloatDisplay> EditableDocument<'a, F> {
    /// Appends node `id` inline: a clean node as its source text, any other as it prints.
    fn render_leaf(&self, id: NodeId, out: &mut Vec<char>, table: &FloatTable, chars: &Vec<char>, offs: &Vec<usize>)
        requires
            self.inv(),
            chars@ == self.source@,
            offs@.len() == chars@.len() + 1,
            forall|i: int| 0 <= i <= chars@.len() ==> #[trigger] offs@[i] == byte_len(chars@.take(i)),
        ensures
            final(out)@ == self.view_with(table@).leaf_out(old(out)@, id),
    {
        if self.is_clean(id) {
            let sp = match self.document.span(id) {
                Some(sp) => sp,
                None => {
                    return;
                },
            };
            proof {
                assert(spans_ok(self.source@, self.document.nodes@));
                assert(self.document.nodes@[id.0 as int].span == Some(sp));
            }
            let a = char_pos_of(chars, offs, sp.start);
            let b = char_pos_of(chars, offs, sp.end);
            proof {
                if b < a {
                    crate::text::lemma_byte_len_strict(chars@, b as int, a as int);
                }
            }
            let text = crate::charseq::copy_range(chars, a, b);
            push_line(out, &text);
            return;
        }
        match self.document.node(id) {
            Some(node) => {
                let inline = crate::pretty::render_inline(node, &self.document, table);
                crate::text::push_text(out, inline.as_str());
            },
            None => {},
        }
    }

    /// Appends node `id` in block style at `indent`: a clean node copied from the source and
    /// moved to `indent`, anything else rebuilt from its children.
    fn render_node(&self, id: NodeId, indent: usize, out: &mut Vec<char>, table: &FloatTable, chars: &Vec<char>, offs: &Vec<usize>)
        requires
            self.inv(),
            chars@ == self.source@,
            offs@.len() == chars@.len() + 1,
            forall|i: int| 0 <= i <= chars@.len() ==> #[trigger] offs@[i] == byte_len(chars@.take(i)),
        ensures
            final(out)@ == self.view_with(table@).node_out(old(out)@, id, indent as nat),
        decreases self.era@ - self.gen@[id.0 as int], id.0,
    {
        let ghost v = self.view_with(table@);
        if self.is_clean(id) {
            let sp = match self.document.span(id) {
                Some(sp) => sp,
                None => {
                    return;
                },
            };
            proof {
                assert(spans_ok(self.source@, self.document.nodes@));
                assert(self.document.nodes@[id.0 as int].span == Some(sp));
            }
            self.blit_indented(sp, indent, out, chars, offs);
            return;
        }
        let node = match self.document.node(id) {
            Some(n) => n,
            None => {
                return;
            },
        };
        let ghost start = out@;
        let ghost pi = id.0 as int;
        let next: usize = if indent <= usize::MAX - 2 { indent + 2 } else { usize::MAX };
        proof {
            assert(node_ranked(self.document.nodes@, self.gen@, pi));
        }
        match &node.kind {
            NodeKind::Mapping(entries) => {
                if entries.len() == 0 {
                    crate::pretty::push_spaces(out, indent);
                    crate::text::push_text(out, "{}\n");
                    proof {
                        reveal_strlit("{}\n");
                    }
                    assert(out@ =~= v.node_out(start, id, indent as nat));
                    return;
                }
                let mut k: usize = 0;
                while k < entries.len()
                    invariant
                        self.inv(),
                        chars@ == self.source@,
                        offs@.len() == chars@.len() + 1,
                        forall|i: int| 0 <= i <= chars@.len() ==> #[trigger] offs@[i] == byte_len(chars@.take(i)),
                        v == self.view_with(table@),
                        0 <= pi < self.document.nodes@.len(),
                        pi == id.0,
                        self.document.nodes@[pi].kind == NodeKind::Mapping(*entries),
                        next as nat == deeper(indent as nat),
                        k <= entries@.len(),
                        out@ == v.entries_out(start, entries@.take(k as int), id, indent as nat),
                    decreases entries@.len() - k,
                {
                    proof {
                        assert(entries@.take(k + 1).drop_last() =~= entries@.take(k as int));
                        assert(entries@.take(k + 1).last() == entries@[k as int]);
                        assert(node_ranked(self.document.nodes@, self.gen@, pi));
                        let es = self.document.nodes@[pi].kind->Mapping_0@;
                        assert(es == entries@);
                        assert(es[k as int].1.0 < self.document.nodes@.len());
                        assert(edge_down(self.gen@, pi, es[k as int].1.0 as int));
                    }
                    let (key_id, value_id) = entries[k];
                    crate::pretty::push_spaces(out, indent);
                    self.render_leaf(key_id, out, table, chars, offs);
                    let block = match self.document.node(value_id) {
                        Some(value) => crate::pretty::is_nonempty_collection(value),
                        None => false,
                    };
                    if block {
                        crate::text::push_text(out, ":\n");
                        proof {
                            reveal_strlit(":\n");
                            assert(value_id == entries@[k as int].1);
                            assert(edge_down(self.gen@, pi, entries@[k as int].1.0 as int));
                            assert(self.gen@.len() == self.document.nodes@.len());
                            assert(self.gen@[value_id.0 as int] <= self.era@);
                            assert(v.descends(id, value_id));
                        }
                        self.render_node(value_id, next, out, table, chars, offs);
                    } else {
                        crate::text::push_text(out, ": ");
                        proof {
                            reveal_strlit(": ");
                        }
                        self.render_leaf(value_id, out, table, chars, offs);
                        out.push('\n');
                    }
                    k = k + 1;
                    assert(out@ =~= v.entries_out(start, entries@.take(k as int), id, indent as nat));
                }
                proof {
                    assert(entries@.take(k as int) =~= entries@);
                }
            },
            NodeKind::Sequence(items) => {
                if items.len() == 0 {
                    crate::pretty::push_spaces(out, indent);
                    crate::text::push_text(out, "[]\n");
                    proof {
                        reveal_strlit("[]\n");
                    }
                    assert(out@ =~= v.node_out(start, id, indent as nat));
                    return;
                }
                let mut k: usize = 0;
                while k < items.len()
                    invariant
                        self.inv(),
                        chars@ == self.source@,
                        offs@.len() == chars@.len() + 1,
                        forall|i: int| 0 <= i <= chars@.len() ==> #[trigger] offs@[i] == byte_len(chars@.take(i)),
                        v == self.view_with(table@),
                        0 <= pi < self.document.nodes@.len(),
                        pi == id.0,
                        self.document.nodes@[pi].kind == NodeKind::Sequence(*items),
                        next as nat == deeper(indent as nat),
                        k <= items@.len(),
                        out@ == v.items_out(start, items@.take(k as int), id, indent as nat),
                    decreases items@.len() - k,
                {
                    proof {
                        assert(items@.take(k + 1).drop_last() =~= items@.take(k as int));
                        assert(items@.take(k + 1).last() == items@[k as int]);
                        assert(node_ranked(self.document.nodes@, self.gen@, pi));
                        let its = self.document.nodes@[pi].kind->Sequence_0@;
                        assert(its == items@);
                        assert(edge_down(self.gen@, pi, its[k as int].0 as int));
                    }
                    let item = items[k];
                    let block = match self.document.node(item) {
                        Some(n) => crate::pretty::is_nonempty_collection(n),
                        None => false,
                    };
                    crate::pretty::push_spaces(out, indent);
                    if block {
                        crate::text::push_text(out, "-\n");
                        proof {
                            reveal_strlit("-\n");
                            assert(item == items@[k as int]);
                            assert(edge_down(self.gen@, pi, items@[k as int].0 as int));
                            assert(self.gen@.len() == self.document.nodes@.len());
                            assert(self.gen@[item.0 as int] <= self.era@);
                            assert(v.descends(id, item));
                        }
                        self.render_node(item, next, out, table, chars, offs);
                    } else {
                        crate::text::push_text(out, "- ");
                        proof {
                            reveal_strlit("- ");
                        }
                        self.render_leaf(item, out, table, chars, offs);
                        out.push('\n');
                    }
                    k = k + 1;
                    assert(out@ =~= v.items_out(start, items@.take(k as int), id, indent as nat));
                }
                proof {
                    assert(items@.take(k as int) =~= items@);
                }
            },
            _ => {
                crate::pretty::push_spaces(out, indent);
                let inline = crate::pretty::render_inline(node, &self.document, table);
                crate::text::push_text(out, inline.as_str());
                out.push('\n');
                assert(out@ =~= v.node_out(start, id, indent as nat));
            },
        }
    }

    /// Renders the document with floats printing as `table` says: the source itself when no
    /// edit touched it, else the root in block style, every clean node copied from the source.
    pub fn render_with(&self, table: &FloatTable) -> (r: String)
        requires
            self.inv(),
        ensures
            r@ == (if self.unedited() { self.source_text() } else { self.rendered(table@) }),
    {
        if self.dirty.len() == 0 {
            return self.source.clone();
        }
        let chars = chars_of(self.source.as_str());
        let offs = byte_offsets(self.source.as_str(), &chars);
        let root = self.document.documents[0];
        let mut out: Vec<char> = Vec::new();
        self.render_node(root, 0, &mut out, table, &chars, &offs);
        string_from_chars(out.as_slice())
    }

    /// Renders the document: byte for byte the source when no edit touched it; otherwise the
    /// root in block style, every node that no edit touched copied from the source.
    pub fn render(&self) -> (r: String)
        requires
            self.inv(),
        ensures
            self.unedited() ==> r@ == self.source_text(),
            !self.unedited() ==> exists|table: Seq<(Seq<char>, Seq<char>)>| r@ == self.rendered(table),
    {
        let table = crate::pretty::float_table(&self.document, self.floats);
        self.render_with(&table)
    }
}

} // verus!
