//! The arena document model: nodes stored in a vector and referred to by index.
use vstd::prelude::*;
use crate::node::{NodeId, ScalarStyle, ScalarValue, Trivia};
use crate::span::Span;
use crate::version::YamlVersion;

verus! {

/// A scalar node's value, style, source spelling and explicit tag.
#[derive(Clone, Debug, PartialEq, Eq)]
pub struct Scalar {
    pub value: ScalarValue,
    pub style: ScalarStyle,
    /// The source spelling of the scalar, without surrounding quotes.
    pub raw: String,
    pub tag: Option<String>,
}

#[derive(Clone, Debug, PartialEq, Eq)]
pub enum NodeKind {
    Scalar(Scalar),
    Mapping(Vec<(NodeId, NodeId)>),
    Sequence(Vec<NodeId>),
    Alias(NodeId),
}

/// One node of a document.
#[derive(Clone, Debug, PartialEq, Eq)]
pub struct NodeData {
    pub id: NodeId,
    pub kind: NodeKind,
    pub span: Option<Span>,
    /// Trivia appearing immediately before this node in source order.
    pub trivia: Vec<Trivia>,
    pub anchor: Option<String>,
    pub tag: Option<String>,
}

/// Every node that `kind` refers to lies below index `k`.
pub open spec fn refs_below(kind: NodeKind, k: int) -> bool {
    match kind {
        NodeKind::Scalar(_) => true,
        NodeKind::Mapping(entries) => forall|i: int|
            0 <= i < entries@.len() ==> (#[trigger] entries@[i]).0.0 < k && entries@[i].1.0 < k,
        NodeKind::Sequence(items) => forall|i: int|
            0 <= i < items@.len() ==> (#[trigger] items@[i]).0 < k,
        NodeKind::Alias(target) => target.0 < k,
    }
}

/// Each node sits at the index its id names, and refers only to nodes before it, so following
/// references (aliases included) always reaches an existing node and never cycles.
pub open spec fn arena_ok(nodes: Seq<NodeData>) -> bool {
    forall|k: int|
        0 <= k < nodes.len() ==> (#[trigger] nodes[k]).id.0 == k && refs_below(nodes[k].kind, k)
}

/// Every alias refers to a node before it.
pub open spec fn aliases_below(nodes: Seq<NodeData>) -> bool {
    forall|k: int|
        0 <= k < nodes.len() ==> match (#[trigger] nodes[k]).kind {
            NodeKind::Alias(t) => (t.0 as int) < k,
            _ => true,
        }
}

pub proof fn lemma_arena_aliases(nodes: Seq<NodeData>)
    requires
        arena_ok(nodes),
    ensures
        aliases_below(nodes),
{
    assert forall|k: int| 0 <= k < nodes.len() implies match (#[trigger] nodes[k]).kind {
        NodeKind::Alias(t) => (t.0 as int) < k,
        _ => true,
    } by {
        assert(refs_below(nodes[k].kind, k));
    }
}

/// A sequence item of a node in a well-formed arena lies below that node.
pub proof fn lemma_item_below(nodes: Seq<NodeData>, p: int, j: int)
    requires
        arena_ok(nodes),
        0 <= p < nodes.len(),
        nodes[p].kind is Sequence,
        0 <= j < nodes[p].kind->Sequence_0@.len(),
    ensures
        (nodes[p].kind->Sequence_0@[j].0 as int) < p,
{
    assert(refs_below(nodes[p].kind, p));
}

/// The key and value of a mapping entry of a node in a well-formed arena lie below that node.
pub proof fn lemma_entry_below(nodes: Seq<NodeData>, p: int, j: int)
    requires
        arena_ok(nodes),
        0 <= p < nodes.len(),
        nodes[p].kind is Mapping,
        0 <= j < nodes[p].kind->Mapping_0@.len(),
    ensures
        (nodes[p].kind->Mapping_0@[j].0.0 as int) < p,
        (nodes[p].kind->Mapping_0@[j].1.0 as int) < p,
{
    assert(refs_below(nodes[p].kind, p));
}

impl NodeData {
    pub fn new(id: NodeId, kind: NodeKind, span: Option<Span>) -> (r: NodeData)
        ensures
            r.id == id,
            r.kind == kind,
            r.span == span,
            r.trivia@.len() == 0,
            r.anchor is None,
            r.tag is None,
    {
        NodeData { id, kind, span, trivia: Vec::new(), anchor: None, tag: None }
    }
}

/// A parsed YAML stream: the version it resolved under, the root of each document, and the
/// node arena.
#[derive(Clone, Debug, PartialEq, Eq)]
pub struct Document {
    pub version: YamlVersion,
    /// Root node ids in document order.
    pub documents: Vec<NodeId>,
    /// Node ids are indices into this vector.
    pub nodes: Vec<NodeData>,
}

impl Document {
    /// The arena is well formed and every document root exists.
    pub open spec fn wf(&self) -> bool {
        &&& arena_ok(self.nodes@)
        &&& self.nodes@.len() <= u32::MAX as int + 1
        &&& forall|d: int|
            0 <= d < self.documents@.len() ==> (#[trigger] self.documents@[d]).0 < self.nodes@.len()
    }

    pub fn new(version: YamlVersion) -> (r: Document)
        ensures
            r.version == version,
            r.documents@.len() == 0,
            r.nodes@.len() == 0,
            r.wf(),
    {
        Document { version, documents: Vec::new(), nodes: Vec::new() }
    }

    /// Appends `node` to the arena under the next id and returns that id.
    pub fn add_node(&mut self, node: NodeData) -> (id: NodeId)
        requires
            old(self).nodes@.len() <= u32::MAX,
        ensures
            id.0 == old(self).nodes@.len(),
            final(self).nodes@ == old(self).nodes@.push(NodeData { id, ..node }),
            final(self).documents == old(self).documents,
            final(self).version == old(self).version,
            old(self).wf() && refs_below(node.kind, old(self).nodes@.len() as int) ==> final(self).wf(),
    {
        let id = NodeId(self.nodes.len() as u32);
        let ghost before = self.nodes@;
        self.nodes.push(NodeData { id, ..node });
        proof {
            let after = self.nodes@;
            if arena_ok(before) && refs_below(node.kind, before.len() as int) {
                assert forall|k: int| 0 <= k < after.len() implies (#[trigger] after[k]).id.0 == k
                    && refs_below(after[k].kind, k) by {
                    if k < before.len() {
                        assert(after[k] == before[k]);
                    }
                }
            }
        }
        id
    }

    /// The first document's root, when it exists.
    pub fn root(&self) -> (r: Option<NodeId>)
        ensures
            r == (if self.documents@.len() > 0 && (self.documents@[0].0 as int) < self.nodes@.len() {
                Some(self.documents@[0])
            } else {
                None::<NodeId>
            }),
    {
        if self.documents.len() > 0 && (self.documents[0].get() as usize) < self.nodes.len() {
            Some(self.documents[0])
        } else {
            None
        }
    }

    pub fn node(&self, id: NodeId) -> (r: Option<&NodeData>)
        ensures
            (id.0 as int) < self.nodes@.len() ==> r == Some(&self.nodes@[id.0 as int]),
            (id.0 as int) >= self.nodes@.len() ==> r is None,
    {
        let i = id.get() as usize;
        if i < self.nodes.len() {
            Some(&self.nodes[i])
        } else {
            None
        }
    }

    pub fn span(&self, id: NodeId) -> (r: Option<Span>)
        ensures
            (id.0 as int) < self.nodes@.len() ==> r == self.nodes@[id.0 as int].span,
            (id.0 as int) >= self.nodes@.len() ==> r is None,
    {
        let i = id.get() as usize;
        if i < self.nodes.len() {
            self.nodes[i].span
        } else {
            None
        }
    }

    pub fn is_alias(&self, id: NodeId) -> (r: bool)
        ensures
            r == ((id.0 as int) < self.nodes@.len() && self.nodes@[id.0 as int].kind is Alias),
    {
        let i = id.get() as usize;
        i < self.nodes.len() && matches!(self.nodes[i].kind, NodeKind::Alias(_))
    }

    pub fn version(&self) -> (r: YamlVersion)
        ensures
            r == self.version,
    {
        self.version
    }
}

} // verus!
