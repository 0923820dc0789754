//! The questions the C interface answers about a parsed document: each takes a node handle
//! and gives the answer, or the status code C code receives instead. Pointer checks and
//! writing the answers out stay with the C-facing shell.
use vstd::prelude::*;
use crate::document::{Document, NodeData, NodeKind};
use crate::ffi::{TptYamlErrorCode, TptYamlNodeKind, TptYamlScalarType};
use crate::node::{NodeId, ScalarValue};
use crate::text::same_text;
use crate::version::YamlVersion;

verus! {

/// The node a handle names, when it exists.
pub open spec fn node_at(nodes: Seq<NodeData>, node: u32) -> Option<NodeData> {
    if (node as int) < nodes.len() {
        Some(nodes[node as int])
    } else {
        None
    }
}

/// The kind tag of a node kind.
pub open spec fn kind_tag(k: NodeKind) -> TptYamlNodeKind {
    match k {
        NodeKind::Scalar(_) => TptYamlNodeKind::Scalar,
        NodeKind::Mapping(_) => TptYamlNodeKind::Mapping,
        NodeKind::Sequence(_) => TptYamlNodeKind::Sequence,
        NodeKind::Alias(_) => TptYamlNodeKind::Alias,
    }
}

/// The type tag of a scalar value.
pub open spec fn type_tag(v: ScalarValue) -> TptYamlScalarType {
    match v {
        ScalarValue::Null => TptYamlScalarType::Null,
        ScalarValue::Bool(_) => TptYamlScalarType::Bool,
        ScalarValue::Int(_) => TptYamlScalarType::Int,
        ScalarValue::Float(_) => TptYamlScalarType::Float,
        ScalarValue::String(_) => TptYamlScalarType::String,
        ScalarValue::Timestamp(_) => TptYamlScalarType::Timestamp,
    }
}

/// The node a handle names, or `IndexOutOfBounds`.
fn get_node(document: &Document, node: u32) -> (r: Result<&NodeData, TptYamlErrorCode>)
    ensures
        match node_at(document.nodes@, node) {
            Some(n) => r == Ok::<&NodeData, TptYamlErrorCode>(&n),
            None => r == Err::<&NodeData, TptYamlErrorCode>(TptYamlErrorCode::IndexOutOfBounds),
        },
{
    match document.node(NodeId(node)) {
        Some(n) => Ok(n),
        None => Err(TptYamlErrorCode::IndexOutOfBounds),
    }
}

/// The root node of the first document, or `IndexOutOfBounds` for an empty stream.
pub fn document_root(document: &Document) -> (r: Result<u32, TptYamlErrorCode>)
    ensures
        r == (if document.documents@.len() > 0 && (document.documents@[0].0 as int) < document.nodes@.len() {
            Ok::<u32, TptYamlErrorCode>(document.documents@[0].0)
        } else {
            Err::<u32, TptYamlErrorCode>(TptYamlErrorCode::IndexOutOfBounds)
        }),
{
    match document.root() {
        Some(root) => Ok(root.get()),
        None => Err(TptYamlErrorCode::IndexOutOfBounds),
    }
}

/// The YAML version the document resolved under, as major and minor numbers.
pub fn document_version(document: &Document) -> (r: (u32, u32))
    ensures
        r == (match document.version {
            YamlVersion::Version11 => (1u32, 1u32),
            YamlVersion::Version12 => (1u32, 2u32),
        }),
{
    match document.version() {
        YamlVersion::Version11 => (1, 1),
        YamlVersion::Version12 => (1, 2),
    }
}

/// The structural kind of a node.
pub fn node_kind(document: &Document, node: u32) -> (r: Result<TptYamlNodeKind, TptYamlErrorCode>)
    ensures
        r == match node_at(document.nodes@, node) {
            Some(n) => Ok::<TptYamlNodeKind, TptYamlErrorCode>(kind_tag(n.kind)),
            None => Err(TptYamlErrorCode::IndexOutOfBounds),
        },
{
    let n = get_node(document, node)?;
    Ok(match &n.kind {
        NodeKind::Scalar(_) => TptYamlNodeKind::Scalar,
        NodeKind::Mapping(_) => TptYamlNodeKind::Mapping,
        NodeKind::Sequence(_) => TptYamlNodeKind::Sequence,
        NodeKind::Alias(_) => TptYamlNodeKind::Alias,
    })
}

/// The node an alias refers to; `TypeMismatch` for any other node.
pub fn alias_target(document: &Document, node: u32) -> (r: Result<u32, TptYamlErrorCode>)
    ensures
        r == match node_at(document.nodes@, node) {
            Some(n) => match n.kind {
                NodeKind::Alias(t) => Ok::<u32, TptYamlErrorCode>(t.0),
                _ => Err(TptYamlErrorCode::TypeMismatch),
            },
            None => Err(TptYamlErrorCode::IndexOutOfBounds),
        },
{
    let n = get_node(document, node)?;
    match &n.kind {
        NodeKind::Alias(target) => Ok(target.get()),
        _ => Err(TptYamlErrorCode::TypeMismatch),
    }
}

/// The resolved type of a scalar node; `TypeMismatch` for a node that is not a scalar.
pub fn scalar_type(document: &Document, node: u32) -> (r: Result<TptYamlScalarType, TptYamlErrorCode>)
    ensures
        r == match node_at(document.nodes@, node) {
            Some(n) => match n.kind {
                NodeKind::Scalar(s) => Ok::<TptYamlScalarType, TptYamlErrorCode>(type_tag(s.value)),
                _ => Err(TptYamlErrorCode::TypeMismatch),
            },
            None => Err(TptYamlErrorCode::IndexOutOfBounds),
        },
{
    let n = get_node(document, node)?;
    match &n.kind {
        NodeKind::Scalar(s) => Ok(match &s.value {
            ScalarValue::Null => TptYamlScalarType::Null,
            ScalarValue::Bool(_) => TptYamlScalarType::Bool,
            ScalarValue::Int(_) => TptYamlScalarType::Int,
            ScalarValue::Float(_) => TptYamlScalarType::Float,
            ScalarValue::String(_) => TptYamlScalarType::String,
            ScalarValue::Timestamp(_) => TptYamlScalarType::Timestamp,
        }),
        _ => Err(TptYamlErrorCode::TypeMismatch),
    }
}

/// The value of a boolean scalar; `TypeMismatch` for anything else.
pub fn scalar_as_bool(document: &Document, node: u32) -> (r: Result<bool, TptYamlErrorCode>)
    ensures
        r == match node_at(document.nodes@, node) {
            Some(n) => match n.kind {
                NodeKind::Scalar(s) => match s.value {
                    ScalarValue::Bool(b) => Ok::<bool, TptYamlErrorCode>(b),
                    _ => Err(TptYamlErrorCode::TypeMismatch),
                },
                _ => Err(TptYamlErrorCode::TypeMismatch),
            },
            None => Err(TptYamlErrorCode::IndexOutOfBounds),
        },
{
    let n = get_node(document, node)?;
    match &n.kind {
        NodeKind::Scalar(s) => match &s.value {
            ScalarValue::Bool(b) => Ok(*b),
            _ => Err(TptYamlErrorCode::TypeMismatch),
        },
        _ => Err(TptYamlErrorCode::TypeMismatch),
    }
}

/// The value of an integer scalar; `TypeMismatch` for anything else.
pub fn scalar_as_int(document: &Document, node: u32) -> (r: Result<i64, TptYamlErrorCode>)
    ensures
        r == match node_at(document.nodes@, node) {
            Some(n) => match n.kind {
                NodeKind::Scalar(s) => match s.value {
                    ScalarValue::Int(i) => Ok::<i64, TptYamlErrorCode>(i),
                    _ => Err(TptYamlErrorCode::TypeMismatch),
                },
                _ => Err(TptYamlErrorCode::TypeMismatch),
            },
            None => Err(TptYamlErrorCode::IndexOutOfBounds),
        },
{
    let n = get_node(document, node)?;
    match &n.kind {
        NodeKind::Scalar(s) => match &s.value {
            ScalarValue::Int(i) => Ok(*i),
            _ => Err(TptYamlErrorCode::TypeMismatch),
        },
        _ => Err(TptYamlErrorCode::TypeMismatch),
    }
}

/// The text a float scalar reads from, which the C side turns into a double; `TypeMismatch`
/// for anything else.
pub fn scalar_float_text<'a>(document: &'a Document, node: u32) -> (r: Result<&'a String, TptYamlErrorCode>)
    ensures
        match node_at(document.nodes@, node) {
            Some(n) => match n.kind {
                NodeKind::Scalar(s) => match s.value {
                    ScalarValue::Float(t) => r matches Ok(u) && u@ == t@,
                    _ => r == Err::<&String, TptYamlErrorCode>(TptYamlErrorCode::TypeMismatch),
                },
                _ => r == Err::<&String, TptYamlErrorCode>(TptYamlErrorCode::TypeMismatch),
            },
            None => r == Err::<&String, TptYamlErrorCode>(TptYamlErrorCode::IndexOutOfBounds),
        },
{
    let n = get_node(document, node)?;
    match &n.kind {
        NodeKind::Scalar(s) => match &s.value {
            ScalarValue::Float(t) => Ok(t),
            _ => Err(TptYamlErrorCode::TypeMismatch),
        },
        _ => Err(TptYamlErrorCode::TypeMismatch),
    }
}

/// The text of a string or timestamp scalar; `TypeMismatch` for anything else.
pub fn scalar_string<'a>(document: &'a Document, node: u32) -> (r: Result<&'a String, TptYamlErrorCode>)
    ensures
        match node_at(document.nodes@, node) {
            Some(n) => match n.kind {
                NodeKind::Scalar(s) => match s.value {
                    ScalarValue::String(t) => r matches Ok(u) && u@ == t@,
                    ScalarValue::Timestamp(t) => r matches Ok(u) && u@ == t@,
                    _ => r == Err::<&String, TptYamlErrorCode>(TptYamlErrorCode::TypeMismatch),
                },
                _ => r == Err::<&String, TptYamlErrorCode>(TptYamlErrorCode::TypeMismatch),
            },
            None => r == Err::<&String, TptYamlErrorCode>(TptYamlErrorCode::IndexOutOfBounds),
        },
{
    let n = get_node(document, node)?;
    match &n.kind {
        NodeKind::Scalar(s) => match &s.value {
            ScalarValue::String(t) => Ok(t),
            ScalarValue::Timestamp(t) => Ok(t),
            _ => Err(TptYamlErrorCode::TypeMismatch),
        },
        _ => Err(TptYamlErrorCode::TypeMismatch),
    }
}

/// The entries of a mapping node.
pub open spec fn mapping_entries(nodes: Seq<NodeData>, node: u32) -> Result<Seq<(NodeId, NodeId)>, TptYamlErrorCode> {
    match node_at(nodes, node) {
        Some(n) => match n.kind {
            NodeKind::Mapping(es) => Ok(es@),
            _ => Err(TptYamlErrorCode::TypeMismatch),
        },
        None => Err(TptYamlErrorCode::IndexOutOfBounds),
    }
}

/// The items of a sequence node.
pub open spec fn sequence_items(nodes: Seq<NodeData>, node: u32) -> Result<Seq<NodeId>, TptYamlErrorCode> {
    match node_at(nodes, node) {
        Some(n) => match n.kind {
            NodeKind::Sequence(items) => Ok(items@),
            _ => Err(TptYamlErrorCode::TypeMismatch),
        },
        None => Err(TptYamlErrorCode::IndexOutOfBounds),
    }
}

fn entries_of<'a>(document: &'a Document, node: u32) -> (r: Result<&'a Vec<(NodeId, NodeId)>, TptYamlErrorCode>)
    ensures
        match mapping_entries(document.nodes@, node) {
            Ok(es) => r matches Ok(v) && v@ == es,
            Err(e) => r == Err::<&Vec<(NodeId, NodeId)>, TptYamlErrorCode>(e),
        },
{
    let n = get_node(document, node)?;
    match &n.kind {
        NodeKind::Mapping(entries) => Ok(entries),
        _ => Err(TptYamlErrorCode::TypeMismatch),
    }
}

fn items_of<'a>(document: &'a Document, node: u32) -> (r: Result<&'a Vec<NodeId>, TptYamlErrorCode>)
    ensures
        match sequence_items(document.nodes@, node) {
            Ok(items) => r matches Ok(v) && v@ == items,
            Err(e) => r == Err::<&Vec<NodeId>, TptYamlErrorCode>(e),
        },
{
    let n = get_node(document, node)?;
    match &n.kind {
        NodeKind::Sequence(items) => Ok(items),
        _ => Err(TptYamlErrorCode::TypeMismatch),
    }
}

/// The number of entries of a mapping node.
pub fn mapping_len(document: &Document, node: u32) -> (r: Result<usize, TptYamlErrorCode>)
    ensures
        r == match mapping_entries(document.nodes@, node) {
            Ok(es) => Ok::<usize, TptYamlErrorCode>(es.len() as usize),
            Err(e) => Err(e),
        },
{
    let entries = entries_of(document, node)?;
    Ok(entries.len())
}

/// The key node of a mapping's entry at `index`; `IndexOutOfBounds` past the last entry.
pub fn mapping_key_at(document: &Document, node: u32, index: usize) -> (r: Result<u32, TptYamlErrorCode>)
    ensures
        r == match mapping_entries(document.nodes@, node) {
            Ok(es) => if index < es.len() {
                Ok::<u32, TptYamlErrorCode>(es[index as int].0.0)
            } else {
                Err(TptYamlErrorCode::IndexOutOfBounds)
            },
            Err(e) => Err(e),
        },
{
    let entries = entries_of(document, node)?;
    if index < entries.len() {
        Ok(entries[index].0.get())
    } else {
        Err(TptYamlErrorCode::IndexOutOfBounds)
    }
}

/// The value node of a mapping's entry at `index`; `IndexOutOfBounds` past the last entry.
pub fn mapping_value_at(document: &Document, node: u32, index: usize) -> (r: Result<u32, TptYamlErrorCode>)
    ensures
        r == match mapping_entries(document.nodes@, node) {
            Ok(es) => if index < es.len() {
                Ok::<u32, TptYamlErrorCode>(es[index as int].1.0)
            } else {
                Err(TptYamlErrorCode::IndexOutOfBounds)
            },
            Err(e) => Err(e),
        },
{
    let entries = entries_of(document, node)?;
    if index < entries.len() {
        Ok(entries[index].1.get())
    } else {
        Err(TptYamlErrorCode::IndexOutOfBounds)
    }
}

/// Node `id` is a string or timestamp scalar whose text is `key`.
pub open spec fn string_key_is(nodes: Seq<NodeData>, id: NodeId, key: Seq<char>) -> bool {
    &&& (id.0 as int) < nodes.len()
    &&& nodes[id.0 as int].kind matches NodeKind::Scalar(s)
    &&& match s.value {
        ScalarValue::String(t) => t@ == key,
        ScalarValue::Timestamp(t) => t@ == key,
        _ => false,
    }
}

/// The position of the first entry whose key is the string `key`.
pub open spec fn first_string_key(nodes: Seq<NodeData>, es: Seq<(NodeId, NodeId)>, key: Seq<char>) -> Option<int>
    decreases es.len(),
{
    if es.len() == 0 {
        None
    } else {
        match first_string_key(nodes, es.drop_last(), key) {
            Some(i) => Some(i),
            None => if string_key_is(nodes, es.last().0, key) {
                Some(es.len() - 1)
            } else {
                None
            },
        }
    }
}

proof fn lemma_first_string_key_prefix(nodes: Seq<NodeData>, es: Seq<(NodeId, NodeId)>, k: int, key: Seq<char>)
    requires
        0 <= k <= es.len(),
        first_string_key(nodes, es.take(k), key) is Some,
    ensures
        first_string_key(nodes, es, key) == first_string_key(nodes, es.take(k), key),
    decreases es.len() - k,
{
    if k < es.len() {
        assert(es.take(k + 1).drop_last() =~= es.take(k));
        lemma_first_string_key_prefix(nodes, es, k + 1, key);
    } else {
        assert(es.take(k) =~= es);
    }
}

/// The value of the first entry whose key is the string `key`; `IndexOutOfBounds` when no
/// entry has it.
pub fn mapping_get(document: &Document, node: u32, key: &str) -> (r: Result<u32, TptYamlErrorCode>)
    ensures
        r == match mapping_entries(document.nodes@, node) {
            Ok(es) => match first_string_key(document.nodes@, es, key@) {
                Some(i) => Ok::<u32, TptYamlErrorCode>(es[i].1.0),
                None => Err(TptYamlErrorCode::IndexOutOfBounds),
            },
            Err(e) => Err(e),
        },
{
    let entries = entries_of(document, node)?;
    let mut i: usize = 0;
    assert(entries@.take(0) =~= Seq::<(NodeId, NodeId)>::empty());
    while i < entries.len()
        invariant
            i <= entries@.len(),
            mapping_entries(document.nodes@, node) == Ok::<Seq<(NodeId, NodeId)>, TptYamlErrorCode>(entries@),
            first_string_key(document.nodes@, entries@.take(i as int), key@) is None,
        decreases entries@.len() - i,
    {
        proof {
            assert(entries@.take(i + 1).drop_last() =~= entries@.take(i as int));
        }
        let (key_id, value_id) = entries[i];
        let matches = match document.node(key_id) {
            Some(kn) => match &kn.kind {
                NodeKind::Scalar(s) => match &s.value {
                    ScalarValue::String(t) => same_text(t.as_str(), key),
                    ScalarValue::Timestamp(t) => same_text(t.as_str(), key),
                    _ => false,
                },
                _ => false,
            },
            None => false,
        };
        if matches {
            proof {
                lemma_first_string_key_prefix(document.nodes@, entries@, i + 1, key@);
            }
            return Ok(value_id.get());
        }
        i = i + 1;
    }
    proof {
        assert(entries@.take(i as int) =~= entries@);
    }
    Err(TptYamlErrorCode::IndexOutOfBounds)
}

/// The number of items of a sequence node.
pub fn sequence_len(document: &Document, node: u32) -> (r: Result<usize, TptYamlErrorCode>)
    ensures
        r == match sequence_items(document.nodes@, node) {
            Ok(items) => Ok::<usize, TptYamlErrorCode>(items.len() as usize),
            Err(e) => Err(e),
        },
{
    let items = items_of(document, node)?;
    Ok(items.len())
}

/// A sequence's item at `index`; `IndexOutOfBounds` past the last item.
pub fn sequence_item(document: &Document, node: u32, index: usize) -> (r: Result<u32, TptYamlErrorCode>)
    ensures
        r == match sequence_items(document.nodes@, node) {
            Ok(items) => if index < items.len() {
                Ok::<u32, TptYamlErrorCode>(items[index as int].0)
            } else {
                Err(TptYamlErrorCode::IndexOutOfBounds)
            },
            Err(e) => Err(e),
        },
{
    let items = items_of(document, node)?;
    if index < items.len() {
        Ok(items[index].get())
    } else {
        Err(TptYamlErrorCode::IndexOutOfBounds)
    }
}

} // verus!
