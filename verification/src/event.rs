//! A compact event listing of a document that has already been parsed.
use vstd::prelude::*;
use crate::document::{arena_ok, Document, NodeKind};
use crate::node::NodeId;

verus! {

/// One entry of a document's listing.
#[derive(Clone, Debug, PartialEq, Eq)]
pub enum Event {
    DocumentStart,
    DocumentEnd,
    Node(NodeId),
    Alias(NodeId),
}

/// The ids a node refers to, in source order: for a mapping each key before its value.
pub open spec fn children(kind: NodeKind) -> Seq<NodeId> {
    match kind {
        NodeKind::Mapping(entries) => Seq::new(
            (2 * entries@.len()) as nat,
            |i: int| if i % 2 == 0 { entries@[i / 2].0 } else { entries@[i / 2].1 },
        ),
        NodeKind::Sequence(items) => items@,
        _ => Seq::empty(),
    }
}

/// The listing of node `id` of arena `nodes`: an alias lists as its target, any other node as
/// itself, followed by the listings of its children. Only children below `id` are followed,
/// which in a well-formed arena is all of them.
pub open spec fn listing(nodes: Seq<crate::document::NodeData>, id: int) -> Seq<Event>
    decreases id + 1, 0int,
{
    if 0 <= id < nodes.len() {
        let head = match nodes[id].kind {
            NodeKind::Alias(target) => Event::Alias(target),
            _ => Event::Node(NodeId(id as u32)),
        };
        seq![head] + listing_of(nodes, children(nodes[id].kind), id)
    } else {
        Seq::empty()
    }
}

/// The listings of `ids` in turn, following only ids below `bound`.
pub open spec fn listing_of(nodes: Seq<crate::document::NodeData>, ids: Seq<NodeId>, bound: int) -> Seq<Event>
    decreases bound, ids.len(),
{
    if ids.len() == 0 {
        Seq::empty()
    } else {
        let first = ids[0].0 as int;
        (if first < bound { listing(nodes, first) } else { Seq::empty() }) + listing_of(nodes, ids.drop_first(), bound)
    }
}

/// The listing of every document: each root's listing between a start and an end.
pub open spec fn document_listing(nodes: Seq<crate::document::NodeData>, roots: Seq<NodeId>) -> Seq<Event>
    decreases roots.len(),
{
    if roots.len() == 0 {
        Seq::empty()
    } else {
        document_listing(nodes, roots.drop_last()) + seq![Event::DocumentStart] + listing(
            nodes,
            roots.last().0 as int,
        ) + seq![Event::DocumentEnd]
    }
}

fn collect(id: NodeId, document: &Document, out: &mut Vec<Event>)
    requires
        document.wf(),
    ensures
        final(out)@ == old(out)@ + listing(document.nodes@, id.0 as int),
    decreases id.0,
{
    let i = id.get() as usize;
    if i >= document.nodes.len() {
        assert(old(out)@ + listing(document.nodes@, id.0 as int) =~= old(out)@);
        return;
    }
    let ghost nodes = document.nodes@;
    proof {
        assert(nodes[i as int].id.0 == i);
    }
    let node = &document.nodes[i];
    match &node.kind {
        NodeKind::Alias(target) => out.push(Event::Alias(*target)),
        _ => out.push(Event::Node(id)),
    }
    let ghost start = out@;
    match &node.kind {
        NodeKind::Mapping(entries) => {
            let ghost kids = children(node.kind);
            let mut k: usize = 0;
            while k < entries.len()
                invariant
                    document.wf(),
                    nodes == document.nodes@,
                    0 <= i < nodes.len(),
                    node == nodes[i as int],
                    node.kind == NodeKind::Mapping(*entries),
                    kids == children(node.kind),
                    k <= entries@.len(),
                    out@ == start + listing_of(nodes, kids.take(2 * k), i as int),
                    i == id.0,
                decreases entries@.len() - k,
            {
                let (key, value) = entries[k];
                proof {
                    assert(arena_ok(nodes));
                    assert(nodes[i as int].id.0 == i);
                    assert(key.0 < i && value.0 < i);
                }
                let ghost before = out@;
                collect(key, document, out);
                let ghost mid = out@;
                collect(value, document, out);
                proof {
                    lemma_listing_of_snoc(nodes, kids.take(2 * k), key, i as int);
                    assert(kids.take(2 * k).push(key) =~= kids.take(2 * k + 1));
                    lemma_listing_of_snoc(nodes, kids.take(2 * k + 1), value, i as int);
                    assert(kids.take(2 * k + 1).push(value) =~= kids.take(2 * k + 2));
                }
                k = k + 1;
            }
            proof {
                assert(kids.take(2 * k) =~= kids);
            }
        },
        NodeKind::Sequence(items) => {
            let ghost kids = children(node.kind);
            let mut k: usize = 0;
            while k < items.len()
                invariant
                    document.wf(),
                    nodes == document.nodes@,
                    0 <= i < nodes.len(),
                    node == nodes[i as int],
                    node.kind == NodeKind::Sequence(*items),
                    kids == children(node.kind),
                    k <= items@.len(),
                    out@ == start + listing_of(nodes, kids.take(k as int), i as int),
                    i == id.0,
                decreases items@.len() - k,
            {
                let item = items[k];
                proof {
                    assert(arena_ok(nodes));
                    assert(item.0 < i);
                }
                collect(item, document, out);
                proof {
                    lemma_listing_of_snoc(nodes, kids.take(k as int), item, i as int);
                    assert(kids.take(k as int).push(item) =~= kids.take(k + 1));
                }
                k = k + 1;
            }
            proof {
                assert(kids.take(k as int) =~= kids);
            }
        },
        _ => {
            proof {
                assert(listing_of(nodes, children(node.kind), i as int) =~= Seq::<Event>::empty());
            }
        },
    }
    proof {
        assert(out@ =~= old(out)@ + listing(nodes, id.0 as int));
    }
}

/// Appending one id to a list appends its listing.
proof fn lemma_listing_of_snoc(nodes: Seq<crate::document::NodeData>, ids: Seq<NodeId>, x: NodeId, bound: int)
    requires
        (x.0 as int) < bound,
    ensures
        listing_of(nodes, ids.push(x), bound) == listing_of(nodes, ids, bound) + listing(nodes, x.0 as int),
    decreases ids.len(),
{
    if ids.len() == 0 {
        assert(ids.push(x).drop_first() =~= Seq::<NodeId>::empty());
        assert(ids.push(x)[0] == x);
        assert(listing_of(nodes, Seq::<NodeId>::empty(), bound) == Seq::<Event>::empty());
        assert(listing_of(nodes, ids, bound) == Seq::<Event>::empty());
        assert(listing_of(nodes, ids.push(x), bound) =~= listing(nodes, x.0 as int));
    } else {
        assert(ids.push(x).drop_first() =~= ids.drop_first().push(x));
        lemma_listing_of_snoc(nodes, ids.drop_first(), x, bound);
        assert(listing_of(nodes, ids.push(x), bound) =~= listing_of(nodes, ids, bound) + listing(nodes, x.0 as int));
    }
}

/// Lists every document of `document`: a start, the root's listing, an end.
pub fn events(document: &Document) -> (r: Vec<Event>)
    requires
        document.wf(),
    ensures
        r@ == document_listing(document.nodes@, document.documents@),
{
    let mut out: Vec<Event> = Vec::new();
    let mut d: usize = 0;
    while d < document.documents.len()
        invariant
            document.wf(),
            d <= document.documents@.len(),
            out@ == document_listing(document.nodes@, document.documents@.take(d as int)),
        decreases document.documents@.len() - d,
    {
        out.push(Event::DocumentStart);
        collect(document.documents[d], document, &mut out);
        out.push(Event::DocumentEnd);
        proof {
            let roots = document.documents@.take(d + 1);
            assert(roots.drop_last() =~= document.documents@.take(d as int));
        }
        d = d + 1;
    }
    proof {
        assert(document.documents@.take(d as int) =~= document.documents@);
    }
    out
}

} // verus!
