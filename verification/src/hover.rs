//! Editor support built on node spans: the innermost node under a cursor, what kind of node it
//! is, and validation issues as zero-based editor diagnostics.
use vstd::prelude::*;
use crate::document::{lemma_entry_below, lemma_item_below, Document, NodeData, NodeKind};
use crate::node::{NodeId, ScalarValue};
use crate::schema::{issues_sorted, ValidationIssue};
use crate::schema_compile::NumberSemantics;
use crate::schema_validate::{issues_carry_spans, SchemaDocument};
use crate::span::Span;

verus! {

/// Whether node `id` exists and its span contains byte `cursor` (start inclusive, end
/// exclusive).
pub open spec fn span_contains(nodes: Seq<NodeData>, id: NodeId, cursor: int) -> bool {
    &&& (id.0 as int) < nodes.len()
    &&& nodes[id.0 as int].span matches Some(s) && s.start <= cursor < s.end
}

/// The first node among the entries from `i` on, key before value, whose span contains
/// `cursor`.
pub open spec fn first_entry_hit(nodes: Seq<NodeData>, entries: Seq<(NodeId, NodeId)>, i: int, cursor: int) -> Option<NodeId>
    decreases entries.len() - i,
{
    if i < 0 || i >= entries.len() {
        None
    } else if span_contains(nodes, entries[i].0, cursor) {
        Some(entries[i].0)
    } else if span_contains(nodes, entries[i].1, cursor) {
        Some(entries[i].1)
    } else {
        first_entry_hit(nodes, entries, i + 1, cursor)
    }
}

/// The first item from `i` on whose span contains `cursor`.
pub open spec fn first_item_hit(nodes: Seq<NodeData>, items: Seq<NodeId>, i: int, cursor: int) -> Option<NodeId>
    decreases items.len() - i,
{
    if i < 0 || i >= items.len() {
        None
    } else if span_contains(nodes, items[i], cursor) {
        Some(items[i])
    } else {
        first_item_hit(nodes, items, i + 1, cursor)
    }
}

/// The child of `node` whose span contains `cursor`, the first one in document order.
/// Aliases have none: the cursor is over the alias text, not over its target.
pub open spec fn child_hit(nodes: Seq<NodeData>, node: NodeId, cursor: int) -> Option<NodeId> {
    if (node.0 as int) < nodes.len() {
        match nodes[node.0 as int].kind {
            NodeKind::Mapping(entries) => first_entry_hit(nodes, entries@, 0, cursor),
            NodeKind::Sequence(items) => first_item_hit(nodes, items@, 0, cursor),
            _ => None,
        }
    } else {
        None
    }
}

/// The innermost node under `cursor`, descending from `node` through the children that
/// contain it. In a well-formed arena every child lies below its parent, so the descent ends.
pub open spec fn node_at(nodes: Seq<NodeData>, node: NodeId, cursor: int) -> NodeId
    decreases node.0,
{
    match child_hit(nodes, node, cursor) {
        Some(c) => if c.0 < node.0 { node_at(nodes, c, cursor) } else { node },
        None => node,
    }
}

proof fn lemma_entry_hit_below(nodes: Seq<NodeData>, p: int, i: int, cursor: int)
    requires
        crate::document::arena_ok(nodes),
        0 <= p < nodes.len(),
        nodes[p].kind is Mapping,
        0 <= i,
    ensures
        first_entry_hit(nodes, nodes[p].kind->Mapping_0@, i, cursor) matches Some(c) ==> (c.0 as int) < p,
    decreases nodes[p].kind->Mapping_0@.len() - i,
{
    let e = nodes[p].kind->Mapping_0@;
    if i < e.len() {
        lemma_entry_below(nodes, p, i);
        lemma_entry_hit_below(nodes, p, i + 1, cursor);
    }
}

proof fn lemma_item_hit_below(nodes: Seq<NodeData>, p: int, i: int, cursor: int)
    requires
        crate::document::arena_ok(nodes),
        0 <= p < nodes.len(),
        nodes[p].kind is Sequence,
        0 <= i,
    ensures
        first_item_hit(nodes, nodes[p].kind->Sequence_0@, i, cursor) matches Some(c) ==> (c.0 as int) < p,
    decreases nodes[p].kind->Sequence_0@.len() - i,
{
    let items = nodes[p].kind->Sequence_0@;
    if i < items.len() {
        lemma_item_below(nodes, p, i);
        lemma_item_hit_below(nodes, p, i + 1, cursor);
    }
}

/// The node the descent ends at exists whenever the starting node does.
pub proof fn lemma_node_at_exists(nodes: Seq<NodeData>, node: NodeId, cursor: int)
    requires
        (node.0 as int) < nodes.len(),
    ensures
        (node_at(nodes, node, cursor).0 as int) < nodes.len(),
    decreases node.0,
{
    match child_hit(nodes, node, cursor) {
        Some(c) => {
            if c.0 < node.0 {
                lemma_node_at_exists(nodes, c, cursor);
            }
        },
        None => {},
    }
}

fn contains(doc: &Document, id: NodeId, cursor_byte: usize) -> (r: bool)
    ensures
        r == span_contains(doc.nodes@, id, cursor_byte as int),
{
    match doc.span(id) {
        Some(s) => s.start <= cursor_byte && cursor_byte < s.end,
        None => false,
    }
}

/// Walks the arena depth first from `node` and returns the deepest node whose span contains
/// `cursor_byte`, or `node` itself when no child does.
pub fn find_node_at(doc: &Document, node: NodeId, cursor_byte: usize) -> (r: NodeId)
    requires
        doc.wf(),
    ensures
        r == node_at(doc.nodes@, node, cursor_byte as int),
    decreases node.0,
{
    let ghost nodes = doc.nodes@;
    let ghost cursor = cursor_byte as int;
    let data = match doc.node(node) {
        Some(d) => d,
        None => {
            return node;
        },
    };
    match &data.kind {
        NodeKind::Mapping(entries) => {
            proof {
                lemma_entry_hit_below(nodes, node.0 as int, 0, cursor);
            }
            let mut i: usize = 0;
            while i < entries.len()
                invariant
                    doc.wf(),
                    nodes == doc.nodes@,
                    cursor == cursor_byte as int,
                    (node.0 as int) < nodes.len(),
                    nodes[node.0 as int].kind == NodeKind::Mapping(*entries),
                    i <= entries@.len(),
                    first_entry_hit(nodes, entries@, 0, cursor) == first_entry_hit(nodes, entries@, i as int, cursor),
                decreases entries@.len() - i,
            {
                let (k, v) = entries[i];
                proof {
                    lemma_entry_below(nodes, node.0 as int, i as int);
                    assert(first_entry_hit(nodes, entries@, i as int, cursor) == if span_contains(nodes, k, cursor) {
                        Some(k)
                    } else if span_contains(nodes, v, cursor) {
                        Some(v)
                    } else {
                        first_entry_hit(nodes, entries@, i + 1, cursor)
                    });
                }
                if contains(doc, k, cursor_byte) {
                    let r = find_node_at(doc, k, cursor_byte);
                    assert(child_hit(nodes, node, cursor) == Some(k));
                    return r;
                }
                if contains(doc, v, cursor_byte) {
                    let r = find_node_at(doc, v, cursor_byte);
                    assert(child_hit(nodes, node, cursor) == Some(v));
                    return r;
                }
                i = i + 1;
            }
        },
        NodeKind::Sequence(items) => {
            proof {
                lemma_item_hit_below(nodes, node.0 as int, 0, cursor);
            }
            let mut i: usize = 0;
            while i < items.len()
                invariant
                    doc.wf(),
                    nodes == doc.nodes@,
                    cursor == cursor_byte as int,
                    (node.0 as int) < nodes.len(),
                    nodes[node.0 as int].kind == NodeKind::Sequence(*items),
                    i <= items@.len(),
                    first_item_hit(nodes, items@, 0, cursor) == first_item_hit(nodes, items@, i as int, cursor),
                decreases items@.len() - i,
            {
                let item = items[i];
                proof {
                    lemma_item_below(nodes, node.0 as int, i as int);
                    assert(first_item_hit(nodes, items@, i as int, cursor) == if span_contains(nodes, item, cursor) {
                        Some(item)
                    } else {
                        first_item_hit(nodes, items@, i + 1, cursor)
                    });
                }
                if contains(doc, item, cursor_byte) {
                    let r = find_node_at(doc, item, cursor_byte);
                    assert(child_hit(nodes, node, cursor) == Some(item));
                    return r;
                }
                i = i + 1;
            }
        },
        NodeKind::Alias(_) => {},
        NodeKind::Scalar(_) => {},
    }
    node
}

/// What a hovered node is: the type of a scalar's value, or the size of a collection, or the
/// node an alias refers to.
#[derive(Clone, Copy, Debug, PartialEq, Eq)]
pub enum HoverKind {
    /// The document has no root.
    Empty,
    Null,
    Boolean,
    Integer,
    Float,
    String,
    Timestamp,
    /// A mapping with this many entries.
    Mapping(usize),
    /// A sequence with this many items.
    Sequence(usize),
    /// An alias of this node.
    Alias(NodeId),
}

/// The kind shown for a node.
pub open spec fn hover_kind(data: NodeData) -> HoverKind {
    match data.kind {
        NodeKind::Scalar(s) => match s.value {
            ScalarValue::Null => HoverKind::Null,
            ScalarValue::Bool(_) => HoverKind::Boolean,
            ScalarValue::Int(_) => HoverKind::Integer,
            ScalarValue::Float(_) => HoverKind::Float,
            ScalarValue::String(_) => HoverKind::String,
            ScalarValue::Timestamp(_) => HoverKind::Timestamp,
        },
        NodeKind::Mapping(entries) => HoverKind::Mapping(entries@.len() as usize),
        NodeKind::Sequence(items) => HoverKind::Sequence(items@.len() as usize),
        NodeKind::Alias(target) => HoverKind::Alias(target),
    }
}

/// What hovering at a byte offset shows: the node found, its kind and its span.
#[derive(Clone, Copy, Debug, PartialEq, Eq)]
pub struct HoverInfo {
    pub kind: HoverKind,
    /// The hovered node; `None` for an empty document.
    pub node: Option<NodeId>,
    pub span: Option<Span>,
}

/// Hovers at byte `cursor_byte`: the innermost node under it, searched from the root.
pub fn hover(doc: &Document, cursor_byte: usize) -> (r: HoverInfo)
    requires
        doc.wf(),
    ensures
        doc.documents@.len() == 0 || doc.documents@[0].0 >= doc.nodes@.len() ==> r == (HoverInfo {
            kind: HoverKind::Empty,
            node: None,
            span: None,
        }),
        doc.documents@.len() > 0 && doc.documents@[0].0 < doc.nodes@.len() ==> {
            let n = node_at(doc.nodes@, doc.documents@[0], cursor_byte as int);
            &&& (n.0 as int) < doc.nodes@.len()
            &&& r == (HoverInfo { kind: hover_kind(doc.nodes@[n.0 as int]), node: Some(n), span: doc.nodes@[n.0 as int].span })
        },
{
    let root = match doc.root() {
        Some(r) => r,
        None => {
            return HoverInfo { kind: HoverKind::Empty, node: None, span: None };
        },
    };
    let node = find_node_at(doc, root, cursor_byte);
    proof {
        lemma_node_at_exists(doc.nodes@, root, cursor_byte as int);
    }
    let data = &doc.nodes[node.get() as usize];
    let kind = match &data.kind {
        NodeKind::Scalar(s) => match &s.value {
            ScalarValue::Null => HoverKind::Null,
            ScalarValue::Bool(_) => HoverKind::Boolean,
            ScalarValue::Int(_) => HoverKind::Integer,
            ScalarValue::Float(_) => HoverKind::Float,
            ScalarValue::String(_) => HoverKind::String,
            ScalarValue::Timestamp(_) => HoverKind::Timestamp,
        },
        NodeKind::Mapping(entries) => HoverKind::Mapping(entries.len()),
        NodeKind::Sequence(items) => HoverKind::Sequence(items.len()),
        NodeKind::Alias(target) => HoverKind::Alias(*target),
    };
    HoverInfo { kind, node: Some(node), span: doc.span(node) }
}

/// One editor diagnostic: where (zero-based line and column) and what.
#[derive(Clone, Debug, PartialEq, Eq)]
pub struct Diagnostic {
    pub path: String,
    pub message: String,
    /// Zero-based line.
    pub line: usize,
    /// Zero-based column.
    pub column: usize,
}

/// One less than `n`, or zero.
pub open spec fn zero_based(n: usize) -> usize {
    if n > 0 { (n - 1) as usize } else { 0 }
}

/// `d` reports `issue`: same path and message, and the issue's one-based span position made
/// zero-based (zero without a span).
pub open spec fn reports(d: Diagnostic, issue: ValidationIssue) -> bool {
    &&& d.path@ == issue.path@
    &&& d.message@ == issue.message@
    &&& d.line == (match issue.span { Some(s) => zero_based(s.line), None => 0 })
    &&& d.column == (match issue.span { Some(s) => zero_based(s.column), None => 0 })
}

/// The diagnostics of `issues`, one each, in order.
pub open spec fn reports_all(ds: Seq<Diagnostic>, issues: Seq<ValidationIssue>) -> bool {
    &&& ds.len() == issues.len()
    &&& forall|i: int| 0 <= i < ds.len() ==> reports(#[trigger] ds[i], issues[i])
}

/// Turns validation issues into zero-based editor diagnostics, one each, in order.
pub fn diagnostics_from(issues: &[ValidationIssue]) -> (r: Vec<Diagnostic>)
    ensures
        reports_all(r@, issues@),
{
    let mut out: Vec<Diagnostic> = Vec::new();
    let mut i: usize = 0;
    while i < issues.len()
        invariant
            i <= issues@.len(),
            out@.len() == i,
            forall|k: int| 0 <= k < i ==> reports(#[trigger] out@[k], issues@[k]),
        decreases issues@.len() - i,
    {
        let issue = &issues[i];
        let (line, column) = match issue.span {
            Some(s) => (s.line.saturating_sub(1), s.column.saturating_sub(1)),
            None => (0, 0),
        };
        out.push(Diagnostic { path: issue.path.clone(), message: issue.message.clone(), line, column });
        i = i + 1;
    }
    out
}

/// Validates the document's root against `schema` and reports each issue as a diagnostic; an
/// empty document has none. `numbers` decides the float comparisons of validation.
pub fn lsp_diagnostics<N: NumberSemantics>(doc: &Document, schema: &SchemaDocument, numbers: &N) -> (r: Vec<Diagnostic>)
    requires
        doc.wf(),
    ensures
        !(doc.documents@.len() > 0 && doc.documents@[0].0 < doc.nodes@.len()) ==> r@.len() == 0,
        doc.documents@.len() > 0 && doc.documents@[0].0 < doc.nodes@.len() ==> exists|issues: Seq<ValidationIssue>|
            issues_sorted(issues) && issues_carry_spans(*doc, issues) && reports_all(r@, issues),
{
    let root = match doc.root() {
        Some(r) => r,
        None => {
            return Vec::new();
        },
    };
    let report = schema.validate(doc, root, numbers);
    diagnostics_from(report.issues())
}

} // verus!
