//! The compiled schema: its intermediate representation and the compiler from a schema
//! document's node arena.
use vstd::prelude::*;
use crate::document::{Document, NodeData, NodeKind};
use crate::node::{NodeId, ScalarValue};
use crate::pattern::{compile as compile_pattern, Pattern};
use crate::schema::{json_type_named, Error, JsonType};
use crate::text::{push_text, same_text, string_from_chars};

verus! {

/// A number of a schema or a document: an integer, or a float by the text it reads from.
#[derive(Clone, Debug, PartialEq, Eq)]
pub enum Number {
    Int(i64),
    Float(String),
}

/// How two numbers compare as doubles.
#[derive(Clone, Copy, Debug, PartialEq, Eq, Structural)]
pub enum NumberOrder {
    Less,
    Equal,
    Greater,
    /// One of them is NaN.
    Unordered,
}

/// The double arithmetic that numeric constraints need: comparing two numbers as doubles
/// (an integer converts to the nearest double), whether a value misses a nonzero step (the
/// quotient has a fractional part), and how a number prints as a double.
pub trait NumberSemantics {
    fn compare(&self, a: &Number, b: &Number) -> NumberOrder;

    fn misses_multiple(&self, value: &Number, step: &Number) -> bool;

    fn display(&self, n: &Number) -> String;
}

/// A value usable in `enum`/`const`: the compiled form of a scalar.
#[derive(Clone, Debug, PartialEq, Eq)]
pub enum EnumValue {
    Null,
    Bool(bool),
    Number(Number),
    String(String),
}

/// How an object treats properties not listed in `properties`.
#[derive(Debug)]
pub enum Additional {
    Allow,
    Forbid,
    Schema(Box<Schema>),
}

/// The compiled schema.
#[derive(Debug)]
pub enum Schema {
    /// The `true`/`false` schema: `false` rejects everything, `true` accepts everything.
    Constant(bool),
    Type(JsonType),
    Enum(Vec<EnumValue>),
    Const(EnumValue),
    String { min_length: Option<usize>, max_length: Option<usize>, pattern: Option<Pattern> },
    Number {
        minimum: Option<Number>,
        maximum: Option<Number>,
        exclusive_minimum: Option<Number>,
        exclusive_maximum: Option<Number>,
        multiple_of: Option<Number>,
    },
    Array { items: Option<Box<Schema>>, min_items: Option<usize>, max_items: Option<usize>, unique_items: bool },
    Object {
        properties: Vec<(String, Schema)>,
        required: Vec<String>,
        additional: Additional,
        min_properties: Option<usize>,
        max_properties: Option<usize>,
    },
    Not(Box<Schema>),
    OneOf(Vec<Schema>),
    AnyOf(Vec<Schema>),
    AllOf(Vec<Schema>),
    /// An internal reference: `#/$defs/<name>` or `#/<name>`, as written.
    Ref(String),
}

/// The named definitions of a schema, each name once.
pub open spec fn defs_distinct(defs: Seq<(String, Schema)>) -> bool {
    forall|i: int, j: int| 0 <= i < j < defs.len() ==> (#[trigger] defs[i]).0@ != (#[trigger] defs[j]).0@
}

/// The definition named `name`, if any.
pub fn find_def<'a>(defs: &'a Vec<(String, Schema)>, name: &str) -> (r: Option<&'a Schema>)
    ensures
        r is Some <==> exists|i: int| 0 <= i < defs@.len() && (#[trigger] defs@[i]).0@ == name@,
        r matches Some(s) ==> exists|i: int| 0 <= i < defs@.len() && (#[trigger] defs@[i]).0@ == name@ && defs@[i].1 == *s,
{
    let mut i: usize = 0;
    while i < defs.len()
        invariant
            i <= defs@.len(),
            forall|j: int| 0 <= j < i ==> (#[trigger] defs@[j]).0@ != name@,
        decreases defs@.len() - i,
    {
        if same_text(defs[i].0.as_str(), name) {
            return Some(&defs[i].1);
        }
        i = i + 1;
    }
    None
}

/// Adds definition `name`, replacing an earlier one of the same name.
pub(crate) fn insert_def(defs: &mut Vec<(String, Schema)>, name: String, schema: Schema)
    requires
        defs_distinct(old(defs)@),
    ensures
        defs_distinct(final(defs)@),
        exists|i: int| 0 <= i < final(defs)@.len() && (#[trigger] final(defs)@[i]).0@ == name@,
        forall|j: int| 0 <= j < final(defs)@.len() && (#[trigger] final(defs)@[j]).0@ == name@ ==> final(defs)@[j].1 == schema,
        forall|j: int| 0 <= j < final(defs)@.len() && (#[trigger] final(defs)@[j]).0@ != name@ ==> exists|k: int|
            0 <= k < old(defs)@.len() && #[trigger] old(defs)@[k] == final(defs)@[j],
        forall|k: int| 0 <= k < old(defs)@.len() && (#[trigger] old(defs)@[k]).0@ != name@ ==> exists|j: int|
            0 <= j < final(defs)@.len() && #[trigger] final(defs)@[j] == old(defs)@[k],
{
    let mut i: usize = 0;
    while i < defs.len()
        invariant
            i <= defs@.len(),
            *defs == *old(defs),
            defs_distinct(defs@),
            forall|j: int| 0 <= j < i ==> (#[trigger] defs@[j]).0@ != name@,
        decreases defs@.len() - i,
    {
        if same_text(defs[i].0.as_str(), name.as_str()) {
            let ghost before = defs@;
            defs.set(i, (name, schema));
            proof {
                assert forall|a: int, b: int| 0 <= a < b < defs@.len() implies (#[trigger] defs@[a]).0@ != (#[trigger] defs@[b]).0@ by {
                    if a != i && b != i {
                        assert(defs@[a] == before[a] && defs@[b] == before[b]);
                    } else if a == i {
                        assert(defs@[b] == before[b]);
                        assert(before[b].0@ != before[a].0@);
                    } else {
                        assert(defs@[a] == before[a]);
                        assert(before[a].0@ != before[b].0@);
                    }
                }
                assert(defs@[i as int].0@ == name@);
                assert forall|j: int| 0 <= j < defs@.len() && (#[trigger] defs@[j]).0@ != name@ implies exists|k: int|
                    0 <= k < before.len() && #[trigger] before[k] == defs@[j] by {
                    assert(j != i);
                    assert(before[j] == defs@[j]);
                }
                assert forall|k: int| 0 <= k < before.len() && (#[trigger] before[k]).0@ != name@ implies exists|j: int|
                    0 <= j < defs@.len() && #[trigger] defs@[j] == before[k] by {
                    assert(k != i);
                    assert(defs@[k] == before[k]);
                }
                assert forall|j: int| 0 <= j < defs@.len() && (#[trigger] defs@[j]).0@ == name@ implies defs@[j].1 == schema by {
                    if j != i {
                        assert(defs@[j] == before[j]);
                        if j < i {
                            assert(before[j].0@ != before[i as int].0@);
                        } else {
                            assert(before[i as int].0@ != before[j].0@);
                        }
                    }
                }
            }
            return;
        }
        i = i + 1;
    }
    let ghost before = defs@;
    defs.push((name, schema));
    proof {
        assert forall|a: int, b: int| 0 <= a < b < defs@.len() implies (#[trigger] defs@[a]).0@ != (#[trigger] defs@[b]).0@ by {
            if b < before.len() {
                assert(defs@[a] == before[a] && defs@[b] == before[b]);
            } else {
                assert(defs@[a] == before[a]);
            }
        }
        assert(defs@[before.len() as int].0@ == name@);
        assert forall|j: int| 0 <= j < defs@.len() && (#[trigger] defs@[j]).0@ != name@ implies exists|k: int|
            0 <= k < before.len() && #[trigger] before[k] == defs@[j] by {
            assert(before[j] == defs@[j]);
        }
        assert forall|k: int| 0 <= k < before.len() && (#[trigger] before[k]).0@ != name@ implies exists|j: int|
            0 <= j < defs@.len() && #[trigger] defs@[j] == before[k] by {
            assert(defs@[k] == before[k]);
        }
        assert forall|j: int| 0 <= j < defs@.len() && (#[trigger] defs@[j]).0@ == name@ implies defs@[j].1 == schema by {
            if j < before.len() {
                assert(defs@[j] == before[j]);
            }
        }
    }
}

/// The text of a string or timestamp scalar node.
pub fn scalar_key(document: &Document, id: NodeId) -> (r: Option<String>)
    ensures
        r matches Some(s) ==> (id.0 as int) < document.nodes@.len() && match document.nodes@[id.0 as int].kind {
            NodeKind::Scalar(sc) => match sc.value {
                ScalarValue::String(v) => v@ == s@,
                ScalarValue::Timestamp(v) => v@ == s@,
                _ => false,
            },
            _ => false,
        },
        r is None ==> !((id.0 as int) < document.nodes@.len() && match document.nodes@[id.0 as int].kind {
            NodeKind::Scalar(sc) => sc.value is String || sc.value is Timestamp,
            _ => false,
        }),
{
    match document.node(id) {
        Some(n) => match &n.kind {
            NodeKind::Scalar(scalar) => match &scalar.value {
                ScalarValue::String(v) => Some(v.clone()),
                ScalarValue::Timestamp(v) => Some(v.clone()),
                _ => None,
            },
            _ => None,
        },
        None => None,
    }
}

/// The text of a string or timestamp scalar node.
pub open spec fn key_text_of(nodes: Seq<NodeData>, id: NodeId) -> Option<Seq<char>> {
    if (id.0 as int) < nodes.len() {
        match nodes[id.0 as int].kind {
            NodeKind::Scalar(sc) => match sc.value {
                ScalarValue::String(v) => Some(v@),
                ScalarValue::Timestamp(v) => Some(v@),
                _ => None,
            },
            _ => None,
        }
    } else {
        None
    }
}

/// The position of the first entry keyed by the string `name`.
pub open spec fn first_keyed(nodes: Seq<NodeData>, entries: Seq<(NodeId, NodeId)>, name: Seq<char>) -> Option<int>
    decreases entries.len(),
{
    if entries.len() == 0 {
        None
    } else {
        match first_keyed(nodes, entries.drop_last(), name) {
            Some(i) => Some(i),
            None => if key_text_of(nodes, entries.last().0) == Some(name) {
                Some(entries.len() - 1)
            } else {
                None
            },
        }
    }
}

/// The value of the first entry keyed `name`.
pub open spec fn keyed_value(nodes: Seq<NodeData>, entries: Seq<(NodeId, NodeId)>, name: Seq<char>) -> Option<NodeId> {
    match first_keyed(nodes, entries, name) {
        Some(i) => Some(entries[i].1),
        None => None,
    }
}

proof fn lemma_first_keyed_none(nodes: Seq<NodeData>, entries: Seq<(NodeId, NodeId)>, name: Seq<char>)
    requires
        first_keyed(nodes, entries, name) is None,
    ensures
        forall|k: int| 0 <= k < entries.len() ==> key_text_of(nodes, (#[trigger] entries[k]).0) != Some(name),
    decreases entries.len(),
{
    if entries.len() > 0 {
        lemma_first_keyed_none(nodes, entries.drop_last(), name);
        assert forall|k: int| 0 <= k < entries.len() implies key_text_of(nodes, (#[trigger] entries[k]).0) != Some(name) by {
            if k < entries.len() - 1 {
                assert(entries[k] == entries.drop_last()[k]);
            }
        }
    }
}

proof fn lemma_first_keyed_prefix(nodes: Seq<NodeData>, entries: Seq<(NodeId, NodeId)>, k: int, name: Seq<char>)
    requires
        0 <= k <= entries.len(),
        first_keyed(nodes, entries.take(k), name) is Some,
    ensures
        first_keyed(nodes, entries, name) == first_keyed(nodes, entries.take(k), name),
    decreases entries.len() - k,
{
    if k < entries.len() {
        assert(entries.take(k + 1).drop_last() =~= entries.take(k));
        lemma_first_keyed_prefix(nodes, entries, k + 1, name);
    } else {
        assert(entries.take(k) =~= entries);
    }
}

proof fn lemma_first_keyed_bound(nodes: Seq<NodeData>, entries: Seq<(NodeId, NodeId)>, name: Seq<char>)
    ensures
        first_keyed(nodes, entries, name) matches Some(i) ==> 0 <= i < entries.len(),
    decreases entries.len(),
{
    if entries.len() > 0 {
        lemma_first_keyed_bound(nodes, entries.drop_last(), name);
    }
}

/// Whether the key of some entry is the string `name`.
fn key_is(document: &Document, key_id: NodeId, name: &str) -> (r: bool)
    ensures
        r == (key_text_of(document.nodes@, key_id) == Some(name@)),
{
    match scalar_key(document, key_id) {
        Some(k) => same_text(k.as_str(), name),
        None => false,
    }
}

/// The value of the first entry keyed `name`.
fn by_key(document: &Document, entries: &Vec<(NodeId, NodeId)>, name: &str) -> (r: Option<NodeId>)
    ensures
        r == keyed_value(document.nodes@, entries@, name@),
        r matches Some(v) ==> exists|i: int| 0 <= i < entries@.len() && (#[trigger] entries@[i]).1 == v,
{
    let mut i: usize = 0;
    assert(entries@.take(0) =~= Seq::<(NodeId, NodeId)>::empty());
    while i < entries.len()
        invariant
            i <= entries@.len(),
            first_keyed(document.nodes@, entries@.take(i as int), name@) is None,
        decreases entries@.len() - i,
    {
        proof {
            assert(entries@.take(i + 1).drop_last() =~= entries@.take(i as int));
        }
        if key_is(document, entries[i].0, name) {
            proof {
                lemma_first_keyed_prefix(document.nodes@, entries@, i + 1, name@);
            }
            return Some(entries[i].1);
        }
        i = i + 1;
    }
    proof {
        assert(entries@.take(i as int) =~= entries@);
    }
    None
}

fn message(a: &str, b: &str) -> (r: String)
    ensures
        r@ == a@ + b@,
{
    let mut v: Vec<char> = Vec::new();
    push_text(&mut v, a);
    push_text(&mut v, b);
    string_from_chars(v.as_slice())
}

fn invalid(msg: &str) -> (e: Error)
    ensures
        e == Error::InvalidSchema(e->InvalidSchema_0) && e->InvalidSchema_0@ == msg@,
{
    Error::InvalidSchema(msg.to_string())
}

/// The value of node `id` when it is a scalar.
pub open spec fn scalar_value_at(document: Document, id: NodeId) -> Option<ScalarValue> {
    if (id.0 as int) < document.nodes@.len() {
        match document.nodes@[id.0 as int].kind {
            NodeKind::Scalar(sc) => Some(sc.value),
            _ => None,
        }
    } else {
        None
    }
}

/// `n` is the number `v` holds: the same integer, or the same float text.
pub open spec fn number_of(n: Number, v: ScalarValue) -> bool {
    match (v, n) {
        (ScalarValue::Int(i), Number::Int(j)) => i == j,
        (ScalarValue::Float(t), Number::Float(u)) => t@ == u@,
        _ => false,
    }
}

/// `e` is the `enum`/`const` form of `v`: timestamps compare as their text.
pub open spec fn enum_of(e: EnumValue, v: ScalarValue) -> bool {
    match (v, e) {
        (ScalarValue::Null, EnumValue::Null) => true,
        (ScalarValue::Bool(b), EnumValue::Bool(c)) => b == c,
        (ScalarValue::Int(_), EnumValue::Number(n)) => number_of(n, v),
        (ScalarValue::Float(_), EnumValue::Number(n)) => number_of(n, v),
        (ScalarValue::String(t), EnumValue::String(u)) => t@ == u@,
        (ScalarValue::Timestamp(t), EnumValue::String(u)) => t@ == u@,
        _ => false,
    }
}

/// The number a scalar node holds.
pub fn node_number(document: &Document, id: NodeId) -> (r: Option<Number>)
    ensures
        match scalar_value_at(*document, id) {
            Some(v) => if v is Int || v is Float {
                r matches Some(n) && number_of(n, v)
            } else {
                r is None
            },
            None => r is None,
        },
{
    match document.node(id) {
        Some(n) => match &n.kind {
            NodeKind::Scalar(scalar) => match &scalar.value {
                ScalarValue::Int(v) => Some(Number::Int(*v)),
                ScalarValue::Float(t) => Some(Number::Float(t.clone())),
                _ => None,
            },
            _ => None,
        },
        None => None,
    }
}

fn optional_number(document: &Document, id: Option<NodeId>) -> (r: Option<Number>)
    ensures
        match id {
            None => r is None,
            Some(i) => match scalar_value_at(*document, i) {
                Some(v) => if v is Int || v is Float {
                    r matches Some(n) && number_of(n, v)
                } else {
                    r is None
                },
                None => r is None,
            },
        },
{
    match id {
        Some(i) => node_number(document, i),
        None => None,
    }
}

/// The text of a string or timestamp scalar node.
pub open spec fn scalar_text_of(document: Document, id: NodeId) -> Option<Seq<char>> {
    match scalar_value_at(document, id) {
        Some(ScalarValue::String(v)) => Some(v@),
        Some(ScalarValue::Timestamp(v)) => Some(v@),
        _ => None,
    }
}

/// `n` is what keyword `name` of `entries` gives as a number: the number its value holds, or
/// nothing.
pub open spec fn number_keyword(document: Document, entries: Seq<(NodeId, NodeId)>, name: Seq<char>, n: Option<Number>) -> bool {
    match keyed_value(document.nodes@, entries, name) {
        None => n is None,
        Some(i) => match scalar_value_at(document, i) {
            Some(v) => if v is Int || v is Float {
                n matches Some(x) && number_of(x, v)
            } else {
                n is None
            },
            None => n is None,
        },
    }
}

/// The non-negative integer an optional keyword value gives.
pub open spec fn usize_keyword(document: Document, id: Option<NodeId>) -> Option<usize> {
    match id {
        Some(i) => match scalar_value_at(document, i) {
            Some(ScalarValue::Int(v)) => Some(clamp_usize(v as int)),
            _ => None,
        },
        None => None,
    }
}

/// `v` as a `usize`: zero for a negative value, the largest `usize` for one beyond it.
pub open spec fn clamp_usize(v: int) -> usize {
    if v <= 0 {
        0
    } else if v <= usize::MAX {
        v as usize
    } else {
        usize::MAX
    }
}

/// A non-negative integer keyword; a negative value counts as zero.
fn optional_usize(document: &Document, id: Option<NodeId>) -> (r: Option<usize>)
    ensures
        r == (match id {
            Some(i) => match scalar_value_at(*document, i) {
                Some(ScalarValue::Int(v)) => Some(clamp_usize(v as int)),
                _ => None,
            },
            None => None,
        }),
{
    let i = match id {
        Some(i) => i,
        None => {
            return None;
        },
    };
    match document.node(i) {
        Some(n) => match &n.kind {
            NodeKind::Scalar(scalar) => match &scalar.value {
                ScalarValue::Int(v) => {
                    let v = *v;
                    if v <= 0 {
                        Some(0)
                    } else if (v as u64) <= (usize::MAX as u64) {
                        Some(v as usize)
                    } else {
                        Some(usize::MAX)
                    }
                },
                _ => None,
            },
            _ => None,
        },
        None => None,
    }
}

fn optional_pattern(document: &Document, id: Option<NodeId>) -> (r: Result<Option<Pattern>, Error>)
    ensures
        match id {
            None => r matches Ok(None),
            Some(i) => match scalar_text_of(*document, i) {
                None => r matches Err(Error::InvalidSchema(m)) && m@ == "pattern must be a string"@,
                Some(t) => match crate::pattern_spec::compile_model(t) {
                    Ok(pm) => r matches Ok(Some(p)) && p@ == pm,
                    Err(_) => r matches Err(Error::InvalidPattern(m)) && m@ == t,
                },
            },
        },
{
    let i = match id {
        Some(i) => i,
        None => {
            return Ok(None);
        },
    };
    let source = match document.node(i) {
        Some(n) => match &n.kind {
            NodeKind::Scalar(scalar) => match scalar.value.as_str() {
                Some(s) => s.to_string(),
                None => {
                    return Err(invalid("pattern must be a string"));
                },
            },
            _ => {
                return Err(invalid("pattern must be a string"));
            },
        },
        None => {
            return Err(invalid("pattern must be a string"));
        },
    };
    match compile_pattern(source.as_str()) {
        Ok(p) => Ok(Some(p)),
        Err(()) => Err(Error::InvalidPattern(source)),
    }
}

/// The compiled form of a scalar node for `enum`/`const`.
pub fn enum_value(document: &Document, id: NodeId) -> (r: Option<EnumValue>)
    ensures
        match scalar_value_at(*document, id) {
            Some(v) => r matches Some(e) && enum_of(e, v),
            None => r is None,
        },
{
    match document.node(id) {
        Some(n) => match &n.kind {
            NodeKind::Scalar(scalar) => Some(match &scalar.value {
                ScalarValue::Null => EnumValue::Null,
                ScalarValue::Bool(b) => EnumValue::Bool(*b),
                ScalarValue::Int(i) => EnumValue::Number(Number::Int(*i)),
                ScalarValue::Float(t) => EnumValue::Number(Number::Float(t.clone())),
                ScalarValue::String(s) => EnumValue::String(s.clone()),
                ScalarValue::Timestamp(s) => EnumValue::String(s.clone()),
            }),
            _ => None,
        },
        None => None,
    }
}

/// The entries of a mapping node.
pub open spec fn entries_of(document: Document, id: NodeId) -> Option<Seq<(NodeId, NodeId)>> {
    if (id.0 as int) < document.nodes@.len() {
        match document.nodes@[id.0 as int].kind {
            NodeKind::Mapping(e) => Some(e@),
            _ => None,
        }
    } else {
        None
    }
}

/// The schema a `type` keyword naming `t` compiles to: the bare type for `null` and
/// `boolean`, else the constraint variant of that type.
pub open spec fn schema_of_type(s: Schema, t: JsonType) -> bool {
    match t {
        JsonType::Null | JsonType::Boolean => s matches Schema::Type(u) && u == t,
        JsonType::String => s is String,
        JsonType::Number => s is Number,
        JsonType::Array => s is Array,
        JsonType::Object => s is Object,
    }
}

/// The items of sequence node `id`.
pub open spec fn items_at(nodes: Seq<NodeData>, id: NodeId) -> Option<Seq<NodeId>> {
    if (id.0 as int) < nodes.len() {
        match nodes[id.0 as int].kind {
            NodeKind::Sequence(items) => Some(items@),
            _ => None,
        }
    } else {
        None
    }
}

/// The entries of mapping node `id`.
pub open spec fn mapping_at(nodes: Seq<NodeData>, id: NodeId) -> Option<Seq<(NodeId, NodeId)>> {
    if (id.0 as int) < nodes.len() {
        match nodes[id.0 as int].kind {
            NodeKind::Mapping(e) => Some(e@),
            _ => None,
        }
    } else {
        None
    }
}

/// The value of scalar node `id`.
pub open spec fn scalar_at(nodes: Seq<NodeData>, id: NodeId) -> Option<ScalarValue> {
    if (id.0 as int) < nodes.len() {
        match nodes[id.0 as int].kind {
            NodeKind::Scalar(sc) => Some(sc.value),
            _ => None,
        }
    } else {
        None
    }
}

/// What `$ref` and `type` decide of compiling a schema mapping with `entries`: a `$ref`
/// first (it must be a string naming an internal target that is one of the definitions
/// `names`), then a `type` (a string naming a known type, which picks the schema's form, as
/// [`typed_decided`] says).
pub open spec fn head_decided(
    document: Document,
    entries: Seq<(NodeId, NodeId)>,
    names: Seq<String>,
    r: Result<Schema, Error>,
) -> bool {
    match keyed_value(document.nodes@, entries, "$ref"@) {
        Some(v) => match key_text_of(document.nodes@, v) {
            None => (r matches Err(Error::InvalidSchema(m)) && m@ == "$ref must be a string"@),
            Some(name) => match ref_target_spec(name) {
                None => (r matches Err(Error::InvalidSchema(m)) && m@ == "only internal $refs are supported: "@ + name),
                Some(t) => if !names_target(names, t) {
                    (r matches Err(Error::InvalidSchema(m)) && m@ == "unknown $ref target: "@ + name)
                } else {
                    (r matches Ok(Schema::Ref(n)) && n@ == name)
                },
            },
        },
        None => match keyed_value(document.nodes@, entries, "type"@) {
            Some(v) => match key_text_of(document.nodes@, v) {
                None => (r matches Err(Error::InvalidSchema(m)) && m@ == "type must be a string"@),
                Some(name) => match json_type_named(name) {
                    None => (r matches Err(Error::InvalidSchema(m)) && m@ == "unknown type: "@ + name),
                    Some(t) => typed_decided(document, entries, t, r),
                },
            },
            None => true,
        },
    }
}

/// Schema `s` was compiled from node `id`: a mapping, of which `$ref` and `type` decide as
/// [`head_decided`] says.
pub open spec fn child_decided(document: Document, id: NodeId, names: Seq<String>, s: Schema) -> bool {
    mapping_at(document.nodes@, id) matches Some(es) && head_decided(document, es, names, Ok(s))
}

/// Every node of `items` is a scalar.
pub open spec fn all_scalars(document: Document, items: Seq<NodeId>) -> bool {
    forall|k: int| 0 <= k < items.len() ==> (#[trigger] scalar_at(document.nodes@, items[k])) is Some
}

/// Schemas `v`, one per node of `items`, each compiled from its node.
pub open spec fn children_decided(document: Document, items: Seq<NodeId>, names: Seq<String>, v: Seq<Schema>) -> bool {
    &&& v.len() == items.len()
    &&& forall|k: int| 0 <= k < items.len() ==> child_decided(document, #[trigger] items[k], names, v[k])
}

/// What a combinator keyword (`oneOf`, `anyOf` or `allOf`, named `key`) with value `id`
/// gives: the value must be a sequence, and on success the schema is that combinator, holding
/// one compiled schema per item.
pub open spec fn list_decided(
    document: Document,
    id: NodeId,
    key: Seq<char>,
    names: Seq<String>,
    r: Result<Schema, Error>,
) -> bool {
    match items_at(document.nodes@, id) {
        None => (r matches Err(Error::InvalidSchema(m)) && m@ == key + " must be a sequence"@),
        Some(items) => r matches Ok(s) ==> match s {
            Schema::OneOf(v) => key == "oneOf"@ && children_decided(document, items, names, v@),
            Schema::AnyOf(v) => key == "anyOf"@ && children_decided(document, items, names, v@),
            Schema::AllOf(v) => key == "allOf"@ && children_decided(document, items, names, v@),
            _ => false,
        },
    }
}

/// What compiling a schema mapping with neither `$ref` nor `type` gives: `enum` (a sequence
/// of scalars), else `const` (a scalar), else the first of `oneOf`, `anyOf`, `allOf`, else
/// `not` (a schema); a mapping with none of these accepts everything.
pub open spec fn form_decided(
    document: Document,
    entries: Seq<(NodeId, NodeId)>,
    names: Seq<String>,
    r: Result<Schema, Error>,
) -> bool {
    match keyed_value(document.nodes@, entries, "enum"@) {
        Some(e) => match items_at(document.nodes@, e) {
            None => (r matches Err(Error::InvalidSchema(m)) && m@ == "enum must be a sequence"@),
            Some(items) => if all_scalars(document, items) {
                r matches Ok(Schema::Enum(vals)) && vals@.len() == items.len() && forall|k: int|
                    0 <= k < items.len() ==> enum_of(#[trigger] vals@[k], scalar_at(document.nodes@, items[k])->0)
            } else {
                (r matches Err(Error::InvalidSchema(m)) && m@ == "enum values must be scalars"@)
            },
        },
        None => match keyed_value(document.nodes@, entries, "const"@) {
            Some(c) => match scalar_at(document.nodes@, c) {
                Some(v) => (r matches Ok(Schema::Const(e)) && enum_of(e, v)),
                None => (r matches Err(Error::InvalidSchema(m)) && m@ == "const must be a scalar"@),
            },
            None => match keyed_value(document.nodes@, entries, "oneOf"@) {
                Some(l) => list_decided(document, l, "oneOf"@, names, r),
                None => match keyed_value(document.nodes@, entries, "anyOf"@) {
                    Some(l) => list_decided(document, l, "anyOf"@, names, r),
                    None => match keyed_value(document.nodes@, entries, "allOf"@) {
                        Some(l) => list_decided(document, l, "allOf"@, names, r),
                        None => match keyed_value(document.nodes@, entries, "not"@) {
                            Some(n) => r matches Ok(s) ==> (s matches Schema::Not(inner) && child_decided(document, n, names, *inner)),
                            None => (r matches Ok(Schema::Constant(true))),
                        },
                    },
                },
            },
        },
    }
}

/// What compiling a schema mapping with `entries` gives: what `$ref` and `type` decide
/// ([`head_decided`]), and without either, what the other form keywords decide
/// ([`form_decided`]).
pub open spec fn compile_decided(
    document: Document,
    entries: Seq<(NodeId, NodeId)>,
    names: Seq<String>,
    r: Result<Schema, Error>,
) -> bool {
    &&& head_decided(document, entries, names, r)
    &&& (keyed_value(document.nodes@, entries, "$ref"@) is None && keyed_value(document.nodes@, entries, "type"@) is None)
        ==> form_decided(document, entries, names, r)
}

/// Whether `target` is one of the definition names `names`.
pub open spec fn names_target(names: Seq<String>, target: Seq<char>) -> bool {
    exists|i: int| 0 <= i < names.len() && (#[trigger] names[i])@ == target
}

pub(crate) fn has_name(names: &Vec<String>, target: &str) -> (r: bool)
    ensures
        r == names_target(names@, target@),
{
    let mut i: usize = 0;
    while i < names.len()
        invariant
            i <= names@.len(),
            forall|j: int| 0 <= j < i ==> (#[trigger] names@[j])@ != target@,
        decreases names@.len() - i,
    {
        if same_text(names[i].as_str(), target) {
            return true;
        }
        i = i + 1;
    }
    false
}

/// Compiles schema node `id`, which must be a mapping; a `$ref` in it must name one of the
/// definitions `names`.
pub fn compile_schema(document: &Document, id: NodeId, names: &Vec<String>) -> (r: Result<Schema, Error>)
    requires
        document.wf(),
    ensures
        entries_of(*document, id) is None ==> (r matches Err(Error::InvalidSchema(m)) && m@ == "schema must be a mapping"@),
        entries_of(*document, id) matches Some(es) ==> compile_decided(*document, es, names@, r),
    decreases id.0, 2int,
{
    match document.node(id) {
        Some(n) => match &n.kind {
            NodeKind::Mapping(entries) => compile_mapping_entries(document, id, entries, names),
            _ => Err(invalid("schema must be a mapping")),
        },
        None => Err(invalid("schema must be a mapping")),
    }
}


/// The target an internal reference names: what follows `#/$defs/`, else what follows `#/`.
pub open spec fn ref_target_spec(name: Seq<char>) -> Option<Seq<char>> {
    if name.len() >= 8 && name.take(8) == "#/$defs/"@ {
        Some(name.skip(8))
    } else if name.len() >= 2 && name.take(2) == "#/"@ {
        Some(name.skip(2))
    } else {
        None
    }
}

/// Strips `#/$defs/` or `#/` off an internal reference.
pub fn ref_target(name: &str) -> (r: Option<String>)
    ensures
        match (r, ref_target_spec(name@)) {
            (Some(t), Some(u)) => t@ == u,
            (None, None) => true,
            _ => false,
        },
{
    proof {
        reveal_strlit("#/$defs/");
        reveal_strlit("#/");
    }
    let c = crate::text::chars_of(name);
    let defs = crate::text::chars_of("#/$defs/");
    let hash = crate::text::chars_of("#/");
    if starts_with(&c, &defs) {
        Some(string_from_chars(vstd::slice::slice_subrange(c.as_slice(), defs.len(), c.len())))
    } else if starts_with(&c, &hash) {
        Some(string_from_chars(vstd::slice::slice_subrange(c.as_slice(), hash.len(), c.len())))
    } else {
        None
    }
}

fn starts_with(s: &Vec<char>, p: &Vec<char>) -> (r: bool)
    ensures
        r == (p@.len() <= s@.len() && s@.take(p@.len() as int) == p@),
{
    if p.len() > s.len() {
        return false;
    }
    let mut i: usize = 0;
    while i < p.len()
        invariant
            i <= p@.len() <= s@.len(),
            forall|j: int| 0 <= j < i ==> s@[j] == p@[j],
        decreases p@.len() - i,
    {
        if s[i] != p[i] {
            proof {
                assert(s@.take(p@.len() as int)[i as int] != p@[i as int]);
            }
            return false;
        }
        i = i + 1;
    }
    assert(s@.take(p@.len() as int) =~= p@);
    true
}

/// Compiles the schema given by the entries of mapping node `owner`; a `$ref` must name one of
/// the definitions `names`.
fn compile_mapping_entries(
    document: &Document,
    owner: NodeId,
    entries: &Vec<(NodeId, NodeId)>,
    names: &Vec<String>,
) -> (r: Result<Schema, Error>)
    requires
        document.wf(),
        entries_of(*document, owner) == Some(entries@),
    ensures
        compile_decided(*document, entries@, names@, r),
    decreases owner.0, 1int,
{
    proof {
        assert(crate::document::arena_ok(document.nodes@));
        assert(document.nodes@[owner.0 as int].id.0 == owner.0);
    }
    if let Some(ref_id) = by_key(document, entries, "$ref") {
        let name = match scalar_key(document, ref_id) {
            Some(n) => n,
            None => {
                return Err(invalid("$ref must be a string"));
            },
        };
        let internal = match ref_target(name.as_str()) {
            Some(t) => t,
            None => {
                return Err(Error::InvalidSchema(message("only internal $refs are supported: ", name.as_str())));
            },
        };
        if !has_name(names, internal.as_str()) {
            return Err(Error::InvalidSchema(message("unknown $ref target: ", name.as_str())));
        }
        return Ok(Schema::Ref(name));
    }
    if let Some(type_id) = by_key(document, entries, "type") {
        let name = match scalar_key(document, type_id) {
            Some(n) => n,
            None => {
                return Err(invalid("type must be a string"));
            },
        };
        let json_type = match JsonType::from_name(name.as_str()) {
            Some(t) => t,
            None => {
                return Err(Error::InvalidSchema(message("unknown type: ", name.as_str())));
            },
        };
        return compile_typed(document, owner, entries, json_type, names);
    }
    if let Some(enum_id) = by_key(document, entries, "enum") {
        let items = match document.node(enum_id) {
            Some(n) => match &n.kind {
                NodeKind::Sequence(items) => items,
                _ => {
                    return Err(invalid("enum must be a sequence"));
                },
            },
            None => {
                return Err(invalid("enum must be a sequence"));
            },
        };
        let mut values: Vec<EnumValue> = Vec::new();
        let mut i: usize = 0;
        while i < items.len()
            invariant
                i <= items@.len(),
                keyed_value(document.nodes@, entries@, "$ref"@) is None,
                keyed_value(document.nodes@, entries@, "type"@) is None,
                keyed_value(document.nodes@, entries@, "enum"@) == Some(enum_id),
                items_at(document.nodes@, enum_id) == Some(items@),
                values@.len() == i,
                forall|k: int| 0 <= k < i ==> (#[trigger] scalar_at(document.nodes@, items@[k])) is Some
                    && enum_of(values@[k], scalar_at(document.nodes@, items@[k])->0),
            decreases items@.len() - i,
        {
            match enum_value(document, items[i]) {
                Some(v) => values.push(v),
                None => {
                    assert(scalar_at(document.nodes@, items@[i as int]) is None);
                    return Err(invalid("enum values must be scalars"));
                },
            }
            i = i + 1;
        }
        return Ok(Schema::Enum(values));
    }
    if let Some(const_id) = by_key(document, entries, "const") {
        return match enum_value(document, const_id) {
            Some(v) => Ok(Schema::Const(v)),
            None => Err(invalid("const must be a scalar")),
        };
    }
    let mut variant: usize = 0;
    while variant < 3
        invariant
            document.wf(),
            entries_of(*document, owner) == Some(entries@),
            (owner.0 as int) < document.nodes@.len(),
            keyed_value(document.nodes@, entries@, "$ref"@) is None,
            keyed_value(document.nodes@, entries@, "type"@) is None,
            keyed_value(document.nodes@, entries@, "enum"@) is None,
            keyed_value(document.nodes@, entries@, "const"@) is None,
            variant >= 1 ==> keyed_value(document.nodes@, entries@, "oneOf"@) is None,
            variant >= 2 ==> keyed_value(document.nodes@, entries@, "anyOf"@) is None,
            variant >= 3 ==> keyed_value(document.nodes@, entries@, "allOf"@) is None,
        decreases 3 - variant,
    {
        let name = if variant == 0 { "oneOf" } else if variant == 1 { "anyOf" } else { "allOf" };
        if let Some(seq_id) = by_key(document, entries, name) {
            let items = match document.node(seq_id) {
                Some(n) => match &n.kind {
                    NodeKind::Sequence(items) => items,
                    _ => {
                        return Err(Error::InvalidSchema(message(name, " must be a sequence")));
                    },
                },
                None => {
                    return Err(Error::InvalidSchema(message(name, " must be a sequence")));
                },
            };
            proof {
                assert(crate::document::arena_ok(document.nodes@));
                assert(seq_id.0 < owner.0);
                assert(document.nodes@[seq_id.0 as int].id.0 == seq_id.0);
            }
            let mut schemas: Vec<Schema> = Vec::new();
            let mut i: usize = 0;
            while i < items.len()
                invariant
                    i <= items@.len(),
                    document.wf(),
                    (seq_id.0 as int) < document.nodes@.len(),
                    seq_id.0 < owner.0,
                    keyed_value(document.nodes@, entries@, "$ref"@) is None,
                    keyed_value(document.nodes@, entries@, "type"@) is None,
                    keyed_value(document.nodes@, entries@, name@) == Some(seq_id),
                    name@ == "oneOf"@ || name@ == "anyOf"@ || name@ == "allOf"@,
                    keyed_value(document.nodes@, entries@, "enum"@) is None,
                    keyed_value(document.nodes@, entries@, "const"@) is None,
                    variant == 0 ==> name@ == "oneOf"@,
                    variant == 1 ==> name@ == "anyOf"@,
                    variant == 2 ==> name@ == "allOf"@,
                    variant < 3,
                    variant >= 1 ==> keyed_value(document.nodes@, entries@, "oneOf"@) is None,
                    variant >= 2 ==> keyed_value(document.nodes@, entries@, "anyOf"@) is None,
                    document.nodes@[seq_id.0 as int].kind == NodeKind::Sequence(*items),
                    schemas@.len() == i,
                    forall|k: int| 0 <= k < i ==> child_decided(*document, #[trigger] items@[k], names@, schemas@[k]),
                decreases items@.len() - i,
            {
                proof {
                    assert(crate::document::arena_ok(document.nodes@));
                    assert(document.nodes@[seq_id.0 as int].id.0 == seq_id.0);
                    crate::document::lemma_item_below(document.nodes@, seq_id.0 as int, i as int);
                }
                let s = match compile_schema(document, items[i], names) {
                    Ok(s) => s,
                    Err(e) => {
                        return Err(e);
                    },
                };
                schemas.push(s);
                i = i + 1;
            }
            return Ok(if variant == 0 {
                Schema::OneOf(schemas)
            } else if variant == 1 {
                Schema::AnyOf(schemas)
            } else {
                Schema::AllOf(schemas)
            });
        }
        variant = variant + 1;
    }
    if let Some(not_id) = by_key(document, entries, "not") {
        let inner = compile_schema(document, not_id, names)?;
        return Ok(Schema::Not(Box::new(inner)));
    }
    Ok(Schema::Constant(true))
}

/// Whether `uniqueItems` is switched on: by the boolean `true`, or by the string `true`.
pub open spec fn unique_on(document: Document, id: NodeId) -> bool {
    match scalar_value_at(document, id) {
        Some(ScalarValue::Bool(b)) => b,
        Some(ScalarValue::String(t)) => t@ == "true"@,
        Some(ScalarValue::Timestamp(t)) => t@ == "true"@,
        _ => false,
    }
}

fn unique_flag(document: &Document, id: NodeId) -> (r: bool)
    ensures
        r == unique_on(*document, id),
{
    match document.node(id) {
        Some(n) => match &n.kind {
            NodeKind::Scalar(scalar) => match &scalar.value {
                ScalarValue::Bool(b) => *b,
                ScalarValue::String(t) => same_text(t.as_str(), "true"),
                ScalarValue::Timestamp(t) => same_text(t.as_str(), "true"),
                _ => false,
            },
            _ => false,
        },
        None => false,
    }
}

/// What compiling a schema mapping with `entries` and a `type` naming `t` gives: the form
/// of that type, with its keywords read from their values.
pub open spec fn typed_decided(document: Document, entries: Seq<(NodeId, NodeId)>, t: JsonType, r: Result<Schema, Error>) -> bool {
    &&& r matches Ok(s) ==> schema_of_type(s, t)
    &&& t is Null || t is Boolean ==> r == Ok::<Schema, Error>(Schema::Type(t))
    &&& t is Number ==> (r matches Ok(Schema::Number { minimum, maximum, exclusive_minimum, exclusive_maximum, multiple_of })
        && number_keyword(document, entries, "minimum"@, minimum) && number_keyword(document, entries, "maximum"@, maximum)
        && number_keyword(document, entries, "exclusiveMinimum"@, exclusive_minimum)
        && number_keyword(document, entries, "exclusiveMaximum"@, exclusive_maximum)
        && number_keyword(document, entries, "multipleOf"@, multiple_of))
    &&& r matches Ok(Schema::Array { unique_items, .. }) ==> unique_items == match keyed_value(document.nodes@, entries, "uniqueItems"@) {
        Some(id) => unique_on(document, id),
        None => false,
    }
    &&& t is String ==> ({
        let pat = keyed_value(document.nodes@, entries, "pattern"@);
        let min_id = keyed_value(document.nodes@, entries, "minLength"@);
        let max_id = keyed_value(document.nodes@, entries, "maxLength"@);
        match pat {
            Some(p) => match scalar_text_of(document, p) {
                None => r matches Err(Error::InvalidSchema(m)) && m@ == "pattern must be a string"@,
                Some(text) => match crate::pattern_spec::compile_model(text) {
                    Err(_) => r matches Err(Error::InvalidPattern(m)) && m@ == text,
                    Ok(pm) => r matches Ok(Schema::String { min_length, max_length, pattern }) && pattern matches Some(q)
                        && q@ == pm && min_length == usize_keyword(document, min_id) && max_length == usize_keyword(document, max_id),
                },
            },
            None => r matches Ok(Schema::String { min_length, max_length, pattern }) && pattern is None && min_length
                == usize_keyword(document, min_id) && max_length == usize_keyword(document, max_id),
        }
    })
}

/// Compiles a schema with a `type` keyword.
fn compile_typed(document: &Document, owner: NodeId, entries: &Vec<(NodeId, NodeId)>, json_type: JsonType, names: &Vec<String>) -> (r: Result<Schema, Error>)
    requires
        document.wf(),
        entries_of(*document, owner) == Some(entries@),
    ensures
        typed_decided(*document, entries@, json_type, r),
    decreases owner.0, 0int,
{
    proof {
        assert(crate::document::arena_ok(document.nodes@));
        assert(document.nodes@[owner.0 as int].id.0 == owner.0);
    }
    match json_type {
        JsonType::Null | JsonType::Boolean => Ok(Schema::Type(json_type)),
        JsonType::String => Ok(Schema::String {
            min_length: optional_usize(document, by_key(document, entries, "minLength")),
            max_length: optional_usize(document, by_key(document, entries, "maxLength")),
            pattern: optional_pattern(document, by_key(document, entries, "pattern"))?,
        }),
        JsonType::Number => Ok(Schema::Number {
            minimum: optional_number(document, by_key(document, entries, "minimum")),
            maximum: optional_number(document, by_key(document, entries, "maximum")),
            exclusive_minimum: optional_number(document, by_key(document, entries, "exclusiveMinimum")),
            exclusive_maximum: optional_number(document, by_key(document, entries, "exclusiveMaximum")),
            multiple_of: optional_number(document, by_key(document, entries, "multipleOf")),
        }),
        JsonType::Array => {
            let items = match by_key(document, entries, "items") {
                Some(id) => Some(Box::new(compile_schema(document, id, names)?)),
                None => None,
            };
            let min_items = optional_usize(document, by_key(document, entries, "minItems"));
            let max_items = optional_usize(document, by_key(document, entries, "maxItems"));
            let unique_items = match by_key(document, entries, "uniqueItems") {
                Some(id) => unique_flag(document, id),
                None => false,
            };
            Ok(Schema::Array { items, min_items, max_items, unique_items })
        },
        JsonType::Object => {
            let mut properties: Vec<(String, Schema)> = Vec::new();
            if let Some(id) = by_key(document, entries, "properties") {
                let prop_entries = match document.node(id) {
                    Some(n) => match &n.kind {
                        NodeKind::Mapping(e) => e,
                        _ => {
                            return Err(invalid("properties must be a mapping"));
                        },
                    },
                    None => {
                        return Err(invalid("properties must be a mapping"));
                    },
                };
                proof {
                    assert(id.0 < owner.0);
                    assert(document.nodes@[id.0 as int].id.0 == id.0);
                }
                let mut i: usize = 0;
                while i < prop_entries.len()
                    invariant
                        json_type == JsonType::Object,
                        i <= prop_entries@.len(),
                        document.wf(),
                        (id.0 as int) < document.nodes@.len(),
                        id.0 < owner.0,
                        document.nodes@[id.0 as int].kind == NodeKind::Mapping(*prop_entries),
                    decreases prop_entries@.len() - i,
                {
                    let (k, v) = prop_entries[i];
                    let name = match scalar_key(document, k) {
                        Some(n) => n,
                        None => {
                            return Err(invalid("property keys must be strings"));
                        },
                    };
                    proof {
                        assert(crate::document::arena_ok(document.nodes@));
                        assert(document.nodes@[id.0 as int].id.0 == id.0);
                        crate::document::lemma_entry_below(document.nodes@, id.0 as int, i as int);
                    }
                    let s = compile_schema(document, v, names)?;
                    properties.push((crate::schema::entry_name(name.as_str()), s));
                    i = i + 1;
                }
            }
            let mut required: Vec<String> = Vec::new();
            if let Some(id) = by_key(document, entries, "required") {
                let items = match document.node(id) {
                    Some(n) => match &n.kind {
                        NodeKind::Sequence(items) => items,
                        _ => {
                            return Err(invalid("required must be a sequence"));
                        },
                    },
                    None => {
                        return Err(invalid("required must be a sequence"));
                    },
                };
                let mut i: usize = 0;
                while i < items.len()
                    invariant
                        json_type == JsonType::Object,
                        i <= items@.len(),
                    decreases items@.len() - i,
                {
                    match scalar_key(document, items[i]) {
                        Some(n) => required.push(n),
                        None => {
                            return Err(invalid("required entries must be strings"));
                        },
                    }
                    i = i + 1;
                }
            }
            let additional = match by_key(document, entries, "additionalProperties") {
                Some(id) => {
                    let flag = match document.node(id) {
                        Some(n) => match &n.kind {
                            NodeKind::Scalar(scalar) => match scalar.value {
                                ScalarValue::Bool(b) => Some(b),
                                _ => None,
                            },
                            _ => None,
                        },
                        None => None,
                    };
                    match flag {
                        Some(false) => Additional::Forbid,
                        Some(true) => Additional::Allow,
                        None => Additional::Schema(Box::new(compile_schema(document, id, names)?)),
                    }
                },
                None => Additional::Allow,
            };
            let min_properties = optional_usize(document, by_key(document, entries, "minProperties"));
            let max_properties = optional_usize(document, by_key(document, entries, "maxProperties"));
            Ok(Schema::Object { properties, required, additional, min_properties, max_properties })
        },
    }
}

/// The texts of `names`.
pub open spec fn texts(names: Seq<String>) -> Seq<Seq<char>> {
    names.map_values(|n: String| n@)
}

/// The string keys of `entries[..j]`, in order.
pub open spec fn key_texts(nodes: Seq<NodeData>, entries: Seq<(NodeId, NodeId)>, j: int) -> Seq<Seq<char>>
    decreases j,
{
    if j <= 0 {
        Seq::empty()
    } else {
        key_texts(nodes, entries, j - 1) + match key_text_of(nodes, entries[j - 1].0) {
            Some(t) => seq![t],
            None => Seq::empty(),
        }
    }
}

/// The definition names of a schema root with `entries[..i]`: the string keys of every
/// `$defs` mapping among them, in order.
pub open spec fn def_texts(nodes: Seq<NodeData>, entries: Seq<(NodeId, NodeId)>, i: int) -> Seq<Seq<char>>
    decreases i,
{
    if i <= 0 {
        Seq::empty()
    } else {
        def_texts(nodes, entries, i - 1) + if key_text_of(nodes, entries[i - 1].0) == Some("$defs"@) {
            match mapping_at(nodes, entries[i - 1].1) {
                Some(d) => key_texts(nodes, d, d.len() as int),
                None => Seq::empty(),
            }
        } else {
            Seq::empty()
        }
    }
}

/// Compiles a schema document's root: `$defs` first, then the root schema itself. Every
/// `$ref`, at the root, in a definition or nested anywhere, must name one of the definitions.
pub fn compile_root(document: &Document, root: NodeId) -> (r: Result<(Schema, Vec<(String, Schema)>), Error>)
    requires
        document.wf(),
    ensures
        entries_of(*document, root) is None ==> (r matches Err(Error::InvalidSchema(m)) && m@ == "schema root must be a mapping"@),
        r matches Ok((_, defs)) ==> defs_distinct(defs@),
        entries_of(*document, root) matches Some(es) ==> (first_keyed(document.nodes@, es, "$defs"@) is None
            ==> compile_decided(*document, es, Seq::empty(), crate::schema_json::root_result(r))),
        entries_of(*document, root) matches Some(es) ==> (r matches Ok((s, _)) ==> exists|names: Seq<String>|
            texts(names) == def_texts(document.nodes@, es, es.len() as int) && #[trigger] compile_decided(*document, es, names, Ok(s))),
{
    let entries = match document.node(root) {
        Some(n) => match &n.kind {
            NodeKind::Mapping(entries) => entries,
            _ => {
                return Err(invalid("schema root must be a mapping"));
            },
        },
        None => {
            return Err(invalid("schema root must be a mapping"));
        },
    };
    let ghost no_defs = first_keyed(document.nodes@, entries@, "$defs"@) is None;
    proof {
        if no_defs {
            lemma_first_keyed_none(document.nodes@, entries@, "$defs"@);
        }
    }
    let mut names: Vec<String> = Vec::new();
    let mut i: usize = 0;
    assert(texts(names@) =~= def_texts(document.nodes@, entries@, 0));
    while i < entries.len()
        invariant
            i <= entries@.len(),
            document.wf(),
            no_defs ==> names@.len() == 0,
            no_defs ==> forall|k: int| 0 <= k < entries@.len() ==> key_text_of(document.nodes@, (#[trigger] entries@[k]).0) != Some("$defs"@),
            texts(names@) == def_texts(document.nodes@, entries@, i as int),
        decreases entries@.len() - i,
    {
        let (key_id, value_id) = entries[i];
        let ghost base = texts(names@);
        if key_is(document, key_id, "$defs") {
            if let Some(n) = document.node(value_id) {
                if let NodeKind::Mapping(def_entries) = &n.kind {
                    let mut j: usize = 0;
                    assert(base + key_texts(document.nodes@, def_entries@, 0) =~= base);
                    while j < def_entries.len()
                        invariant
                            j <= def_entries@.len(),
                            document.wf(),
                            no_defs ==> names@.len() == 0,
                            !no_defs,
                            texts(names@) == base + key_texts(document.nodes@, def_entries@, j as int),
                        decreases def_entries@.len() - j,
                    {
                        let ghost before = names@;
                        if let Some(name) = scalar_key(document, def_entries[j].0) {
                            names.push(name);
                            assert(texts(names@) =~= texts(before).push(name@));
                        }
                        assert(texts(names@) =~= base + key_texts(document.nodes@, def_entries@, j + 1));
                        j = j + 1;
                    }
                    assert(mapping_at(document.nodes@, value_id) == Some(def_entries@));
                } else {
                    assert(mapping_at(document.nodes@, value_id) is None);
                }
            } else {
                assert(mapping_at(document.nodes@, value_id) is None);
            }
        }
        assert(def_texts(document.nodes@, entries@, i + 1) =~= texts(names@));
        i = i + 1;
    }
    let mut defs: Vec<(String, Schema)> = Vec::new();
    let mut i: usize = 0;
    while i < entries.len()
        invariant
            i <= entries@.len(),
            document.wf(),
            defs_distinct(defs@),
            entries_of(*document, root) == Some(entries@),
            texts(names@) == def_texts(document.nodes@, entries@, entries@.len() as int),
            no_defs ==> names@.len() == 0,
            no_defs ==> forall|k: int| 0 <= k < entries@.len() ==> key_text_of(document.nodes@, (#[trigger] entries@[k]).0) != Some("$defs"@),
            no_defs == (first_keyed(document.nodes@, entries@, "$defs"@) is None),
        decreases entries@.len() - i,
    {
        let (key_id, value_id) = entries[i];
        if key_is(document, key_id, "$defs") {
            if let Some(n) = document.node(value_id) {
                if let NodeKind::Mapping(def_entries) = &n.kind {
                    let mut j: usize = 0;
                    while j < def_entries.len()
                        invariant
                            j <= def_entries@.len(),
                            document.wf(),
                            defs_distinct(defs@),
                            entries_of(*document, root) == Some(entries@),
                            !no_defs,
                            no_defs == (first_keyed(document.nodes@, entries@, "$defs"@) is None),
                        decreases def_entries@.len() - j,
                    {
                        let (def_key, def_value) = def_entries[j];
                        let def_name = match scalar_key(document, def_key) {
                            Some(n) => n,
                            None => {
                                return Err(invalid("$defs keys must be strings"));
                            },
                        };
                        let schema = compile_schema(document, def_value, &names)?;
                        insert_def(&mut defs, def_name, schema);
                        j = j + 1;
                    }
                }
            }
        }
        i = i + 1;
    }
    proof {
        if no_defs {
            assert(names@ =~= Seq::<String>::empty());
        }
    }
    match compile_mapping_entries(document, root, entries, &names) {
        Ok(root_schema) => {
            proof {
                assert(compile_decided(*document, entries@, names@, Ok(root_schema)));
            }
            Ok((root_schema, defs))
        },
        Err(e) => Err(e),
    }
}

} // verus!
