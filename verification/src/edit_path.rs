//! Following a [`Path`] from a node down through a document.
use vstd::prelude::*;
use crate::document::{Document, NodeData, NodeKind};
use crate::edit::{Error, Key, KeyModel, Path, keys_model};
use crate::node::NodeId;
use crate::text::same_text;

verus! {

/// Node `id` is a scalar spelled `name`.
pub open spec fn key_named(nodes: Seq<NodeData>, id: NodeId, name: Seq<char>) -> bool {
    &&& (id.0 as int) < nodes.len()
    &&& match nodes[id.0 as int].kind {
        NodeKind::Scalar(s) => s.raw@ == name,
        _ => false,
    }
}

/// The position of the first entry whose key is spelled `name`.
pub open spec fn first_named(nodes: Seq<NodeData>, entries: Seq<(NodeId, NodeId)>, name: Seq<char>) -> Option<int>
    decreases entries.len(),
{
    if entries.len() == 0 {
        None
    } else if key_named(nodes, entries[0].0, name) {
        Some(0)
    } else {
        match first_named(nodes, entries.drop_first(), name) {
            Some(i) => Some(i + 1),
            None => None,
        }
    }
}

/// Where `key` leads from `parent`: the entry position of the first field spelled like it, or
/// the index itself when it is in bounds; a key of the wrong kind for the node is an error.
pub open spec fn child_index_spec(nodes: Seq<NodeData>, parent: NodeId, key: KeyModel) -> Result<Option<int>, Error> {
    if (parent.0 as int) < nodes.len() {
        match (nodes[parent.0 as int].kind, key) {
            (NodeKind::Mapping(entries), KeyModel::Field(name)) => Ok(first_named(nodes, entries@, name)),
            (NodeKind::Sequence(items), KeyModel::Index(i)) => Ok(if i < items@.len() { Some(i as int) } else { None }),
            _ => Err(Error::TypeMismatch),
        }
    } else {
        Err(Error::TypeMismatch)
    }
}

/// The node one step below `current` along `key`.
pub open spec fn step_spec(nodes: Seq<NodeData>, current: NodeId, key: KeyModel) -> Result<NodeId, Error> {
    match child_index_spec(nodes, current, key) {
        Err(e) => Err(e),
        Ok(None) => match key {
            KeyModel::Field(_) => Err(Error::KeyNotFound),
            KeyModel::Index(_) => Err(Error::IndexOutOfBounds),
        },
        Ok(Some(i)) => match nodes[current.0 as int].kind {
            NodeKind::Mapping(entries) => Ok(entries@[i].1),
            NodeKind::Sequence(items) => Ok(items@[i]),
            _ => Err(Error::TypeMismatch),
        },
    }
}

/// The nodes visited following `keys` from `root`, `root` first, or the first error.
pub open spec fn trail_spec(nodes: Seq<NodeData>, root: NodeId, keys: Seq<KeyModel>) -> Result<Seq<NodeId>, Error>
    decreases keys.len(),
{
    if keys.len() == 0 {
        Ok(seq![root])
    } else {
        match trail_spec(nodes, root, keys.drop_last()) {
            Ok(t) => match step_spec(nodes, t.last(), keys.last()) {
                Ok(n) => Ok(t.push(n)),
                Err(e) => Err(e),
            },
            Err(e) => Err(e),
        }
    }
}

/// The node reached following `keys` from `root`.
pub open spec fn resolve_spec(nodes: Seq<NodeData>, root: NodeId, keys: Seq<KeyModel>) -> Result<NodeId, Error> {
    match trail_spec(nodes, root, keys) {
        Ok(t) => Ok(t.last()),
        Err(e) => Err(e),
    }
}

proof fn lemma_trail_nonempty(nodes: Seq<NodeData>, root: NodeId, keys: Seq<KeyModel>)
    ensures
        trail_spec(nodes, root, keys) matches Ok(t) ==> t.len() == keys.len() + 1 && t[0] == root,
    decreases keys.len(),
{
    if keys.len() > 0 {
        lemma_trail_nonempty(nodes, root, keys.drop_last());
    }
}

/// Once a prefix of the keys fails, following all of them fails the same way.
proof fn lemma_trail_err(nodes: Seq<NodeData>, root: NodeId, keys: Seq<KeyModel>, k: int)
    requires
        0 <= k <= keys.len(),
        trail_spec(nodes, root, keys.take(k)) is Err,
    ensures
        trail_spec(nodes, root, keys) == trail_spec(nodes, root, keys.take(k)),
    decreases keys.len() - k,
{
    if k < keys.len() {
        assert(keys.take(k + 1).drop_last() =~= keys.take(k));
        lemma_trail_err(nodes, root, keys, k + 1);
    } else {
        assert(keys.take(k) =~= keys);
    }
}

fn key_matches(document: &Document, key_id: NodeId, name: &str) -> (r: bool)
    ensures
        r == key_named(document.nodes@, key_id, name@),
{
    match document.node(key_id) {
        Some(n) => match &n.kind {
            NodeKind::Scalar(s) => same_text(s.raw.as_str(), name),
            _ => false,
        },
        None => false,
    }
}

/// Where `key` leads from `parent`: for a mapping and a field, the position of the first entry
/// whose key is spelled like the field; for a sequence and an index, the index when in bounds.
pub fn child_index(document: &Document, parent: NodeId, key: &Key) -> (r: Result<Option<usize>, Error>)
    ensures
        match (r, child_index_spec(document.nodes@, parent, key@)) {
            (Ok(Some(i)), Ok(Some(j))) => i as int == j,
            (Ok(None), Ok(None)) => true,
            (Err(e), Err(f)) => e == f,
            _ => false,
        },
{
    match (document.node(parent), key) {
        (Some(n), Key::Field(name)) => match &n.kind {
            NodeKind::Mapping(entries) => {
                let ghost nodes = document.nodes@;
                let mut i: usize = 0;
                assert(entries@.skip(0) =~= entries@);
                #[verifier::loop_isolation(false)]
                while i < entries.len()
                    invariant
                        i <= entries@.len(),
                        nodes == document.nodes@,
                        first_named(nodes, entries@, name@) == shifted(first_named(nodes, entries@.skip(i as int), name@), i as int),
                    decreases entries@.len() - i,
                {
                    proof {
                        assert(entries@.skip(i as int).drop_first() =~= entries@.skip(i + 1));
                    }
                    assert(entries@.skip(i as int)[0] == entries@[i as int]);
                    if key_matches(document, entries[i].0, name.as_str()) {
                        proof {
                            let rest = entries@.skip(i as int);
                            assert(key_named(nodes, rest[0].0, name@));
                            assert(first_named(nodes, rest, name@) == Some(0int));
                            assert(key@ == KeyModel::Field(name@));
                            assert(nodes[parent.0 as int].kind == n.kind);
                        }
                        return Ok(Some(i));
                    }
                    i = i + 1;
                }
                Ok(None)
            },
            _ => Err(Error::TypeMismatch),
        },
        (Some(n), Key::Index(i)) => match &n.kind {
            NodeKind::Sequence(items) => Ok(if *i < items.len() { Some(*i) } else { None }),
            _ => Err(Error::TypeMismatch),
        },
        (None, _) => Err(Error::TypeMismatch),
    }
}

spec fn shifted(p: Option<int>, by: int) -> Option<int> {
    match p {
        Some(i) => Some(i + by),
        None => None,
    }
}

pub(crate) proof fn lemma_first_named_bound(nodes: Seq<NodeData>, entries: Seq<(NodeId, NodeId)>, name: Seq<char>)
    ensures
        first_named(nodes, entries, name) matches Some(i) ==> 0 <= i < entries.len(),
    decreases entries.len(),
{
    if entries.len() > 0 {
        lemma_first_named_bound(nodes, entries.drop_first(), name);
    }
}

/// One step below `current` along `key`.
fn step(document: &Document, current: NodeId, key: &Key) -> (r: Result<NodeId, Error>)
    ensures
        r == step_spec(document.nodes@, current, key@),
{
    let index = match child_index(document, current, key)? {
        Some(i) => i,
        None => {
            return match key {
                Key::Field(_) => Err(Error::KeyNotFound),
                Key::Index(_) => Err(Error::IndexOutOfBounds),
            };
        },
    };
    proof {
        if let NodeKind::Mapping(entries) = document.nodes@[current.0 as int].kind {
            if let KeyModel::Field(name) = key@ {
                lemma_first_named_bound(document.nodes@, entries@, name);
            }
        }
    }
    match (document.node(current), key) {
        (Some(n), Key::Field(_)) => match &n.kind {
            NodeKind::Mapping(entries) => Ok(entries[index].1),
            _ => Err(Error::TypeMismatch),
        },
        (Some(n), Key::Index(_)) => match &n.kind {
            NodeKind::Sequence(items) => Ok(items[index]),
            _ => Err(Error::TypeMismatch),
        },
        (None, _) => Err(Error::TypeMismatch),
    }
}

/// The node that `path` leads to from `root`.
pub fn resolve_path(document: &Document, root: NodeId, path: &Path) -> (r: Result<NodeId, Error>)
    ensures
        r == resolve_spec(document.nodes@, root, path@),
{
    match resolve_trail(document, root, path) {
        Ok(trail) => {
            proof {
                lemma_trail_nonempty(document.nodes@, root, path@);
            }
            Ok(trail[trail.len() - 1])
        },
        Err(e) => Err(e),
    }
}

/// Every node that `path` passes through from `root`, `root` first and the target last.
pub fn resolve_trail(document: &Document, root: NodeId, path: &Path) -> (r: Result<Vec<NodeId>, Error>)
    ensures
        match r {
            Ok(t) => trail_spec(document.nodes@, root, path@) == Ok::<Seq<NodeId>, Error>(t@),
            Err(e) => trail_spec(document.nodes@, root, path@) == Err::<Seq<NodeId>, Error>(e),
        },
{
    let keys = path.keys();
    let mut trail: Vec<NodeId> = Vec::new();
    trail.push(root);
    let mut current = root;
    let mut i: usize = 0;
    assert(keys_model(keys@).take(0) =~= Seq::<KeyModel>::empty());
    while i < keys.len()
        invariant
            keys_model(keys@) == path@,
            i <= keys@.len(),
            trail_spec(document.nodes@, root, path@.take(i as int)) == Ok::<Seq<NodeId>, Error>(trail@),
            trail@.len() > 0,
            current == trail@.last(),
        decreases keys@.len() - i,
    {
        proof {
            assert(path@.take(i + 1).drop_last() =~= path@.take(i as int));
            assert(path@.take(i + 1).last() == keys@[i as int]@);
        }
        current = match step(document, current, &keys[i]) {
            Ok(n) => n,
            Err(e) => {
                proof {
                    lemma_trail_err(document.nodes@, root, path@, i + 1);
                }
                return Err(e);
            },
        };
        trail.push(current);
        i = i + 1;
    }
    assert(path@.take(i as int) =~= path@);
    Ok(trail)
}

} // verus!
