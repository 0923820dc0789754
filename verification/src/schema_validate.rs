//! Validating a document against a compiled schema.
use vstd::prelude::*;
use crate::document::{Document, NodeData, NodeKind};
use crate::node::{NodeId, ParserOptions, ScalarValue};
use crate::parser::{parse_with, SexagesimalFloats};
use crate::schema::{
    issues_sorted, lemma_report_order_sorted_permutation, pop_path, Error, IssueKind, JsonType,
    ValidationIssue, ValidationReport, ValidationSettings, report_order,
};
use crate::schema_compile::{
    compile_root, find_def, node_number, ref_target, scalar_key, Additional, EnumValue, Number,
    NumberOrder, NumberSemantics, Schema,
};
use crate::schema_json::{compile_json, json_read, member_index, read_json, JsonValue};
use crate::span::Span;
use crate::text::{byte_len, chars_of, decimal_chars, push_chars, push_text, same_text, string_from_chars};

verus! {

/// The span of node `id`, when it exists.
pub open spec fn span_of(document: Document, id: NodeId) -> Option<Span> {
    if (id.0 as int) < document.nodes@.len() {
        document.nodes@[id.0 as int].span
    } else {
        None
    }
}

/// Every issue carries the span of the node it was raised at.
pub open spec fn issues_carry_spans(document: Document, issues: Seq<ValidationIssue>) -> bool {
    forall|i: int| 0 <= i < issues.len() ==> (#[trigger] issues[i]).span == span_of(document, issues[i].node)
}

/// The issue kinds that the enabled check groups can report: a type mismatch from any group
/// that checks a type, an unresolvable alias from the type check, each constraint's kinds from
/// its group, and a `false` schema, a matched `not` and the depth limit always.
pub open spec fn kind_enabled(settings: ValidationSettings, k: IssueKind) -> bool {
    match k {
        IssueKind::TypeMismatch => settings.types || settings.strings || settings.numbers || settings.arrays
            || settings.objects,
        IssueKind::RefCycle => settings.types,
        IssueKind::EnumMismatch | IssueKind::ConstMismatch => settings.enums,
        IssueKind::PatternMismatch | IssueKind::MinLength | IssueKind::MaxLength => settings.strings,
        IssueKind::Minimum | IssueKind::Maximum | IssueKind::ExclusiveMinimum | IssueKind::ExclusiveMaximum
        | IssueKind::MultipleOf => settings.numbers,
        IssueKind::MinItems | IssueKind::MaxItems | IssueKind::UniqueItems => settings.arrays,
        IssueKind::RequiredMissing | IssueKind::AdditionalProperty | IssueKind::MinProperties
        | IssueKind::MaxProperties => settings.objects,
        IssueKind::OneOfMismatch | IssueKind::OneOfAmbiguous | IssueKind::AnyOfMismatch
        | IssueKind::AllOfMismatch => settings.combinators,
        IssueKind::RefUnresolved => settings.refs,
        IssueKind::NotMatched | IssueKind::DepthExceeded => true,
    }
}

/// Every issue is of a kind that the enabled check groups report.
pub open spec fn issues_gated(settings: ValidationSettings, issues: Seq<ValidationIssue>) -> bool {
    forall|i: int| 0 <= i < issues.len() ==> kind_enabled(settings, (#[trigger] issues[i]).kind)
}

/// The JSON type of a scalar value.
pub open spec fn value_type(v: ScalarValue) -> JsonType {
    match v {
        ScalarValue::Null => JsonType::Null,
        ScalarValue::Bool(_) => JsonType::Boolean,
        ScalarValue::Int(_) => JsonType::Number,
        ScalarValue::Float(_) => JsonType::Number,
        ScalarValue::String(_) => JsonType::String,
        ScalarValue::Timestamp(_) => JsonType::String,
    }
}

/// The JSON type of node `id`: a scalar by its value, a mapping is an object, a sequence an
/// array, and an alias has its target's type.
pub open spec fn type_of_node(nodes: Seq<NodeData>, id: int) -> Option<JsonType>
    decreases id,
{
    if 0 <= id < nodes.len() {
        match nodes[id].kind {
            NodeKind::Scalar(s) => Some(value_type(s.value)),
            NodeKind::Mapping(_) => Some(JsonType::Object),
            NodeKind::Sequence(_) => Some(JsonType::Array),
            NodeKind::Alias(t) => if (t.0 as int) < id { type_of_node(nodes, t.0 as int) } else { None },
        }
    } else {
        None
    }
}

impl JsonType {
    /// The JSON type of a document node (an integer is a `Number`).
    pub fn of_node(document: &Document, id: NodeId) -> (r: Option<JsonType>)
        requires
            document.wf(),
        ensures
            r == type_of_node(document.nodes@, id.0 as int),
        decreases id.0,
    {
        match document.node(id) {
            Some(n) => {
                proof {
                    assert(crate::document::arena_ok(document.nodes@));
                    assert(document.nodes@[id.0 as int].id.0 == id.0);
                    assert(crate::document::refs_below(document.nodes@[id.0 as int].kind, id.0 as int));
                }
                match &n.kind {
                    NodeKind::Scalar(scalar) => Some(match &scalar.value {
                        ScalarValue::Null => JsonType::Null,
                        ScalarValue::Bool(_) => JsonType::Boolean,
                        ScalarValue::Int(_) => JsonType::Number,
                        ScalarValue::Float(_) => JsonType::Number,
                        ScalarValue::String(_) => JsonType::String,
                        ScalarValue::Timestamp(_) => JsonType::String,
                    }),
                    NodeKind::Mapping(_) => Some(JsonType::Object),
                    NodeKind::Sequence(_) => Some(JsonType::Array),
                    NodeKind::Alias(target) => JsonType::of_node(document, *target),
                }
            },
            None => None,
        }
    }
}

/// Two scalar values of the same kind with the same contents (floats by their text).
pub open spec fn same_value(a: ScalarValue, b: ScalarValue) -> bool {
    match (a, b) {
        (ScalarValue::Null, ScalarValue::Null) => true,
        (ScalarValue::Bool(x), ScalarValue::Bool(y)) => x == y,
        (ScalarValue::Int(x), ScalarValue::Int(y)) => x == y,
        (ScalarValue::Float(x), ScalarValue::Float(y)) => x@ == y@,
        (ScalarValue::String(x), ScalarValue::String(y)) => x@ == y@,
        (ScalarValue::Timestamp(x), ScalarValue::Timestamp(y)) => x@ == y@,
        _ => false,
    }
}

/// Whether an `enum`/`const` value that is not a number equals the scalar `v`: null to null,
/// a boolean to the same boolean, a string to a string or timestamp of the same text.
pub open spec fn enum_equals(e: EnumValue, v: ScalarValue) -> bool {
    match e {
        EnumValue::Null => v is Null,
        EnumValue::Bool(b) => v matches ScalarValue::Bool(c) && b == c,
        EnumValue::String(s) => match v {
            ScalarValue::String(t) => t@ == s@,
            ScalarValue::Timestamp(t) => t@ == s@,
            _ => false,
        },
        EnumValue::Number(_) => false,
    }
}

/// Whether two scalar values are equal, floats compared as doubles.
fn scalar_values_equal<N: NumberSemantics>(a: &ScalarValue, b: &ScalarValue, numbers: &N) -> (r: bool)
    ensures
        !(a is Float && b is Float) ==> r == same_value(*a, *b),
{
    match (a, b) {
        (ScalarValue::Null, ScalarValue::Null) => true,
        (ScalarValue::Bool(x), ScalarValue::Bool(y)) => *x == *y,
        (ScalarValue::Int(x), ScalarValue::Int(y)) => *x == *y,
        (ScalarValue::Float(x), ScalarValue::Float(y)) => {
            let order = numbers.compare(&Number::Float(x.clone()), &Number::Float(y.clone()));
            order == NumberOrder::Equal
        },
        (ScalarValue::String(x), ScalarValue::String(y)) => same_text(x.as_str(), y.as_str()),
        (ScalarValue::Timestamp(x), ScalarValue::Timestamp(y)) => same_text(x.as_str(), y.as_str()),
        _ => false,
    }
}

/// Whether the document node's value equals `value`: numbers by value, so that an integer and
/// a float can match; strings and timestamps by their text.
fn enum_matches<N: NumberSemantics>(value: &EnumValue, document: &Document, id: NodeId, numbers: &N) -> (r: bool)
    ensures
        match crate::schema_compile::scalar_value_at(*document, id) {
            None => !r,
            Some(v) => if value is Number {
                (r ==> v is Int || v is Float)
            } else {
                r == enum_equals(*value, v)
            },
        },
{
    let node = match document.node(id) {
        Some(n) => n,
        None => {
            return false;
        },
    };
    let scalar = match &node.kind {
        NodeKind::Scalar(s) => s,
        _ => {
            return false;
        },
    };
    match value {
        EnumValue::Null => match scalar.value {
            ScalarValue::Null => true,
            _ => false,
        },
        EnumValue::Bool(b) => scalar.value.as_bool() == Some(*b),
        EnumValue::Number(n) => match &scalar.value {
            ScalarValue::Int(i) => numbers.compare(&Number::Int(*i), n) == NumberOrder::Equal,
            ScalarValue::Float(t) => numbers.compare(&Number::Float(t.clone()), n) == NumberOrder::Equal,
            _ => false,
        },
        EnumValue::String(s) => match scalar.value.as_str() {
            Some(t) => same_text(t, s.as_str()),
            None => false,
        },
    }
}

/// Whether two nodes are equal: scalars by value, sequences item by item, and mappings of the
/// same size whose every entry has an equal entry in the other.
fn nodes_equal<N: NumberSemantics>(document: &Document, a: NodeId, b: NodeId, numbers: &N) -> (r: bool)
    requires
        document.wf(),
    ensures
        a.0 == b.0 ==> r,
        a.0 != b.0 && r ==> (a.0 as int) < document.nodes@.len() && (b.0 as int) < document.nodes@.len() && same_shape(
            document.nodes@[a.0 as int].kind,
            document.nodes@[b.0 as int].kind,
        ),
        a.0 != b.0 && (a.0 as int) < document.nodes@.len() && (b.0 as int) < document.nodes@.len()
            && document.nodes@[a.0 as int].kind is Scalar && document.nodes@[b.0 as int].kind is Scalar && !(
        document.nodes@[a.0 as int].kind->Scalar_0.value is Float && document.nodes@[b.0 as int].kind->Scalar_0.value is Float)
            ==> r == same_value(document.nodes@[a.0 as int].kind->Scalar_0.value, document.nodes@[b.0 as int].kind->Scalar_0.value),
    decreases a.0,
{
    if a.0 == b.0 {
        return true;
    }
    let (na, nb) = match (document.node(a), document.node(b)) {
        (Some(x), Some(y)) => (x, y),
        _ => {
            return false;
        },
    };
    proof {
        assert(crate::document::arena_ok(document.nodes@));
        assert(document.nodes@[a.0 as int].id.0 == a.0);
    }
    match (&na.kind, &nb.kind) {
        (NodeKind::Scalar(x), NodeKind::Scalar(y)) => scalar_values_equal(&x.value, &y.value, numbers),
        (NodeKind::Sequence(x), NodeKind::Sequence(y)) => {
            if x.len() != y.len() {
                return false;
            }
            let mut i: usize = 0;
            while i < x.len()
                invariant
                    document.wf(),
                    i <= x@.len(),
                    x@.len() == y@.len(),
                    (a.0 as int) < document.nodes@.len(),
                    (b.0 as int) < document.nodes@.len(),
                    a.0 != b.0,
                    document.nodes@[a.0 as int].kind == NodeKind::Sequence(*x),
                    document.nodes@[b.0 as int].kind == NodeKind::Sequence(*y),
                decreases x@.len() - i,
            {
                proof {
                    crate::document::lemma_item_below(document.nodes@, a.0 as int, i as int);
                }
                if !nodes_equal(document, x[i], y[i], numbers) {
                    return false;
                }
                i = i + 1;
            }
            true
        },
        (NodeKind::Mapping(x), NodeKind::Mapping(y)) => {
            if x.len() != y.len() {
                return false;
            }
            let mut i: usize = 0;
            while i < x.len()
                invariant
                    document.wf(),
                    i <= x@.len(),
                    x@.len() == y@.len(),
                    (a.0 as int) < document.nodes@.len(),
                    (b.0 as int) < document.nodes@.len(),
                    a.0 != b.0,
                    document.nodes@[a.0 as int].kind == NodeKind::Mapping(*x),
                    document.nodes@[b.0 as int].kind == NodeKind::Mapping(*y),
                decreases x@.len() - i,
            {
                proof {
                    crate::document::lemma_entry_below(document.nodes@, a.0 as int, i as int);
                }
                let (xk, xv) = x[i];
                let mut found = false;
                let mut j: usize = 0;
                while j < y.len()
                    invariant
                        document.wf(),
                        j <= y@.len(),
                        xk.0 < a.0,
                        xv.0 < a.0,
                    decreases y@.len() - j,
                {
                    let (yk, yv) = y[j];
                    if nodes_equal(document, xk, yk, numbers) && nodes_equal(document, xv, yv, numbers) {
                        found = true;
                        break;
                    }
                    j = j + 1;
                }
                if !found {
                    return false;
                }
                i = i + 1;
            }
            true
        },
        _ => false,
    }
}

/// Two nodes of the same kind whose collections, if any, have the same size.
pub open spec fn same_shape(a: NodeKind, b: NodeKind) -> bool {
    match (a, b) {
        (NodeKind::Scalar(_), NodeKind::Scalar(_)) => true,
        (NodeKind::Sequence(x), NodeKind::Sequence(y)) => x@.len() == y@.len(),
        (NodeKind::Mapping(x), NodeKind::Mapping(y)) => x@.len() == y@.len(),
        _ => false,
    }
}

/// `a` followed by `b`.
fn concat(a: &str, b: &str) -> (r: String)
    ensures
        r@ == a@ + b@,
{
    let mut v: Vec<char> = Vec::new();
    push_text(&mut v, a);
    push_text(&mut v, b);
    string_from_chars(v.as_slice())
}

fn decimal_string(n: usize) -> (r: String)
    ensures
        r@ == crate::text::decimal_text(n as nat),
{
    string_from_chars(decimal_chars(n).as_slice())
}

/// `path` extended by `segment`, with a `.` between when `path` is not empty.
fn push_segment(path: &mut String, segment: &str)
    ensures
        final(path)@ == (if old(path)@.len() > 0 { old(path)@.push('.') + segment@ } else { segment@ }),
{
    let mut v = chars_of(path.as_str());
    if v.len() > 0 {
        v.push('.');
    }
    push_text(&mut v, segment);
    *path = string_from_chars(v.as_slice());
}

/// Records an issue at `node`.
fn issue(document: &Document, node: NodeId, path: &String, kind: IssueKind, message: String, issues: &mut Vec<ValidationIssue>)
    ensures
        final(issues)@.len() == old(issues)@.len() + 1,
        forall|i: int| 0 <= i < old(issues)@.len() ==> final(issues)@[i] == old(issues)@[i],
        final(issues)@.last().span == span_of(*document, node),
        final(issues)@.last().node == node,
        final(issues)@.last().kind == kind,
        final(issues)@.last().path@ == path@,
{
    issues.push(ValidationIssue { path: path.clone(), kind, message, node, span: document.span(node) });
}

proof fn lemma_push_keeps_spans(document: Document, before: Seq<ValidationIssue>, after: Seq<ValidationIssue>)
    requires
        issues_carry_spans(document, before),
        after.len() == before.len() + 1,
        forall|i: int| 0 <= i < before.len() ==> after[i] == before[i],
        after.last().span == span_of(document, after.last().node),
    ensures
        issues_carry_spans(document, after),
{
    assert forall|i: int| 0 <= i < after.len() implies (#[trigger] after[i]).span == span_of(document, after[i].node) by {
        if i < before.len() {
            assert(after[i] == before[i]);
        }
    }
}

/// The name of a node's type for messages.
fn name_of_type(t: Option<JsonType>) -> (r: &'static str)
    ensures
        r@ == (match t {
            Some(t) => crate::schema::json_type_name(t),
            None => "unknown"@,
        }),
{
    match t {
        Some(t) => t.name(),
        None => "unknown",
    }
}


/// What every validation step keeps: the recorded issues carry their nodes' spans.
spec fn step_ok(document: Document, settings: ValidationSettings, depth: usize, before: Seq<ValidationIssue>) -> bool {
    &&& document.wf()
    &&& settings.max_depth < usize::MAX
    &&& depth <= settings.max_depth
    &&& issues_carry_spans(document, before)
    &&& issues_gated(settings, before)
}

/// `after` is `before` followed by one issue of each of `kinds` in turn, all raised at `node`
/// under `path`.
pub open spec fn appended(
    before: Seq<ValidationIssue>,
    after: Seq<ValidationIssue>,
    kinds: Seq<IssueKind>,
    node: NodeId,
    path: Seq<char>,
) -> bool {
    &&& after.len() == before.len() + kinds.len()
    &&& after.take(before.len() as int) == before
    &&& forall|i: int|
        0 <= i < kinds.len() ==> (#[trigger] after[before.len() + i]).kind == kinds[i] && after[before.len() + i].node
            == node && after[before.len() + i].path@ == path
}

proof fn lemma_appended_step(
    a: Seq<ValidationIssue>,
    b: Seq<ValidationIssue>,
    c: Seq<ValidationIssue>,
    k1: Seq<IssueKind>,
    k2: Seq<IssueKind>,
    node: NodeId,
    path: Seq<char>,
)
    requires
        appended(a, b, k1, node, path),
        appended(b, c, k2, node, path),
    ensures
        appended(a, c, k1 + k2, node, path),
{
    assert(c.take(a.len() as int) =~= b.take(a.len() as int)) by {
        assert forall|i: int| 0 <= i < a.len() implies c[i] == b[i] by {
            assert(c.take(b.len() as int)[i] == b[i]);
        }
    }
    assert forall|i: int| 0 <= i < (k1 + k2).len() implies (#[trigger] c[a.len() + i]).kind == (k1 + k2)[i] && c[a.len()
        + i].node == node && c[a.len() + i].path@ == path by {
        if i < k1.len() {
            assert(c.take(b.len() as int)[a.len() + i] == b[a.len() + i]);
            assert(b[a.len() + i].kind == k1[i]);
        } else {
            let j = i - k1.len();
            assert(c[b.len() + j].kind == k2[j]);
        }
    }
}

proof fn lemma_appended_none(a: Seq<ValidationIssue>, node: NodeId, path: Seq<char>)
    ensures
        appended(a, a, Seq::empty(), node, path),
{
    assert(a.take(a.len() as int) =~= a);
}

proof fn lemma_prefix_appended(
    a: Seq<ValidationIssue>,
    b: Seq<ValidationIssue>,
    c: Seq<ValidationIssue>,
    k: Seq<IssueKind>,
    node: NodeId,
    path: Seq<char>,
)
    requires
        appended(a, b, k, node, path),
        extends(b, c),
    ensures
        extends(a, c),
        c.len() >= a.len() + k.len(),
        appended(a, c.take(a.len() + k.len() as int), k, node, path),
{
    lemma_extends_trans(a, b, c);
    assert(c.take(a.len() + k.len() as int) =~= b);
}

/// How many issues validating each of `elements[..j]` against `items` raises, when every one
/// of them is decided directly (see `direct_issue_kinds`).
pub open spec fn direct_total(
    document: Document,
    elements: Seq<NodeId>,
    items: Schema,
    settings: ValidationSettings,
    depth: usize,
    j: int,
) -> Option<int>
    decreases j,
{
    if j <= 0 {
        Some(0)
    } else {
        match (direct_total(document, elements, items, settings, depth, j - 1), direct_issue_kinds(
            document,
            elements[j - 1],
            items,
            settings,
            (depth + 1) as usize,
        )) {
            (Some(a), Some(k)) => Some(a + k.len()),
            _ => None,
        }
    }
}

/// How many of `schemas[..j]` `node` is decided directly (see `direct_issue_kinds`) to
/// satisfy (`pass`) or to fail (`!pass`).
pub open spec fn count_direct(
    document: Document,
    node: NodeId,
    schemas: Seq<Schema>,
    settings: ValidationSettings,
    depth: usize,
    j: int,
    pass: bool,
) -> int
    decreases j,
{
    if j <= 0 {
        0
    } else {
        count_direct(document, node, schemas, settings, depth, j - 1, pass) + match base_issue_kinds(
            document,
            node,
            schemas[j - 1],
            settings,
            (depth + 1) as usize,
        ) {
            Some(k) => if (k.len() == 0) == pass { 1int } else { 0int },
            None => 0int,
        }
    }
}

/// `after` keeps every issue of `before`, in place, and may add more.
pub open spec fn extends(before: Seq<ValidationIssue>, after: Seq<ValidationIssue>) -> bool {
    after.len() >= before.len() && after.take(before.len() as int) == before
}

proof fn lemma_extends_refl(a: Seq<ValidationIssue>)
    ensures
        extends(a, a),
{
    assert(a.take(a.len() as int) =~= a);
}

proof fn lemma_extends_trans(a: Seq<ValidationIssue>, b: Seq<ValidationIssue>, c: Seq<ValidationIssue>)
    requires
        extends(a, b),
        extends(b, c),
    ensures
        extends(a, c),
{
    assert(c.take(a.len() as int) =~= c.take(b.len() as int).take(a.len() as int));
}

proof fn lemma_appended_extends(a: Seq<ValidationIssue>, b: Seq<ValidationIssue>, k: Seq<IssueKind>, node: NodeId, path: Seq<char>)
    requires
        appended(a, b, k, node, path),
    ensures
        extends(a, b),
{
}

/// The issues added after `before` are all raised at `node` under `path`, each of a kind in
/// `allowed`.
pub open spec fn only_new(
    before: Seq<ValidationIssue>,
    after: Seq<ValidationIssue>,
    node: NodeId,
    path: Seq<char>,
    allowed: Set<IssueKind>,
) -> bool {
    &&& extends(before, after)
    &&& forall|i: int|
        before.len() <= i < after.len() ==> (#[trigger] after[i]).node == node && after[i].path@ == path && allowed.contains(
            after[i].kind,
        )
}

proof fn lemma_only_new_step(
    a: Seq<ValidationIssue>,
    b: Seq<ValidationIssue>,
    c: Seq<ValidationIssue>,
    node: NodeId,
    path: Seq<char>,
    allowed: Set<IssueKind>,
    k: IssueKind,
)
    requires
        only_new(a, b, node, path, allowed),
        appended(b, c, seq![k], node, path),
        allowed.contains(k),
    ensures
        only_new(a, c, node, path, allowed),
{
    lemma_extends_trans(a, b, c);
    assert forall|i: int| a.len() <= i < c.len() implies (#[trigger] c[i]).node == node && c[i].path@ == path
        && allowed.contains(c[i].kind) by {
        if i < b.len() {
            assert(c.take(b.len() as int)[i] == b[i]);
        } else {
            assert(c[b.len() + 0int].kind == seq![k][0]);
        }
    }
}

/// The kinds a number's bound checks may raise: one per bound that is given.
pub open spec fn number_kinds(
    minimum: Option<Number>,
    maximum: Option<Number>,
    exclusive_minimum: Option<Number>,
    exclusive_maximum: Option<Number>,
    multiple_of: Option<Number>,
) -> Set<IssueKind> {
    Set::new(
        |k: IssueKind|
            (k == IssueKind::Minimum && minimum is Some) || (k == IssueKind::Maximum && maximum is Some) || (k
                == IssueKind::ExclusiveMinimum && exclusive_minimum is Some) || (k == IssueKind::ExclusiveMaximum
                && exclusive_maximum is Some) || (k == IssueKind::MultipleOf && multiple_of is Some),
    )
}

/// Whether some entry's key is the string `name`.
pub open spec fn key_present(document: Document, entries: Seq<(NodeId, NodeId)>, name: Seq<char>) -> bool {
    exists|q: int| 0 <= q < entries.len() && crate::schema_compile::scalar_text_of(document, (#[trigger] entries[q]).0) == Some(name)
}

/// One missing-property issue for each of `required[..r]` that no key of `entries` names.
pub open spec fn required_kinds(document: Document, entries: Seq<(NodeId, NodeId)>, required: Seq<String>, r: int) -> Seq<IssueKind>
    decreases r,
{
    if r <= 0 {
        Seq::empty()
    } else {
        required_kinds(document, entries, required, r - 1) + (if key_present(document, entries, required[r - 1]@) {
            Seq::<IssueKind>::empty()
        } else {
            seq![IssueKind::RequiredMissing]
        })
    }
}

/// The kinds of the size checks of a collection with `n` members, in order.
pub open spec fn size_kinds(n: int, min: Option<usize>, max: Option<usize>, below: IssueKind, above: IssueKind) -> Seq<IssueKind> {
    (if min matches Some(m) && n < m { seq![below] } else { Seq::empty() }) + (if max matches Some(m) && n > m {
        seq![above]
    } else {
        Seq::empty()
    })
}

/// The model of an optional pattern.
pub open spec fn pattern_view(p: Option<crate::pattern::Pattern>) -> Option<crate::pattern_spec::PatternModel> {
    match p {
        Some(q) => Some(q@),
        None => None,
    }
}

/// The text of a string or timestamp scalar node.
pub open spec fn scalar_text_at(document: Document, id: NodeId) -> Option<Seq<char>> {
    match crate::schema_compile::scalar_value_at(document, id) {
        Some(ScalarValue::String(v)) => Some(v@),
        Some(ScalarValue::Timestamp(v)) => Some(v@),
        _ => None,
    }
}

/// The kinds of the issues the string checks raise, in order: a type mismatch alone for a
/// node that is not a string; else a too-short, too-long and pattern issue as each applies.
pub open spec fn string_issue_kinds(
    document: Document,
    node: NodeId,
    min: Option<usize>,
    max: Option<usize>,
    pattern: Option<crate::pattern_spec::PatternModel>,
) -> Seq<IssueKind> {
    if type_of_node(document.nodes@, node.0 as int) != Some(JsonType::String) {
        seq![IssueKind::TypeMismatch]
    } else {
        match scalar_text_at(document, node) {
            None => Seq::empty(),
            Some(t) => (if min matches Some(m) && t.len() < m { seq![IssueKind::MinLength] } else { Seq::empty() }) + (
            if max matches Some(m) && t.len() > m { seq![IssueKind::MaxLength] } else { Seq::empty() }) + (
            if pattern matches Some(p) && !crate::pattern_spec::pattern_matches(p, t) {
                seq![IssueKind::PatternMismatch]
            } else {
                Seq::empty()
            }),
        }
    }
}

/// The kinds of the issues validation raises at `node` for the schemas that need neither
/// number semantics nor nested validation, in order: past the depth limit a depth issue;
/// `true`/`false` schemas; `type` schemas; and string schemas. `None` for the other schemas.
pub open spec fn base_issue_kinds(
    document: Document,
    node: NodeId,
    schema: Schema,
    settings: ValidationSettings,
    depth: usize,
) -> Option<Seq<IssueKind>> {
    if depth > settings.max_depth {
        Some(seq![IssueKind::DepthExceeded])
    } else {
        match schema {
            Schema::Constant(ok) => Some(if ok { Seq::empty() } else { seq![IssueKind::NotMatched] }),
            Schema::Type(t) => Some(
                if !settings.types {
                    Seq::empty()
                } else {
                    match type_of_node(document.nodes@, node.0 as int) {
                        None => seq![IssueKind::RefCycle],
                        Some(a) => if a != t { seq![IssueKind::TypeMismatch] } else { Seq::empty() },
                    }
                },
            ),
            Schema::String { min_length, max_length, pattern } => Some(
                if settings.strings {
                    string_issue_kinds(document, node, min_length, max_length, pattern_view(pattern))
                } else {
                    Seq::empty()
                },
            ),
            _ => None,
        }
    }
}

/// Whether node `id` is a scalar equal to the `enum`/`const` value `e` (not a number).
pub open spec fn enum_hit(e: EnumValue, document: Document, id: NodeId) -> bool {
    match crate::schema_compile::scalar_value_at(document, id) {
        Some(v) => enum_equals(e, v),
        None => false,
    }
}

/// The kinds of `issues`, in order.
pub open spec fn kinds_of(issues: Seq<ValidationIssue>) -> Seq<IssueKind> {
    issues.map_values(|i: ValidationIssue| i.kind)
}

/// The kinds `allOf` raises at `node` for `schemas[..j]`: those of each part in turn, when
/// every part is decided directly (see `direct_issue_kinds`) at depth `depth + 1`.
pub open spec fn all_of_kinds(
    document: Document,
    node: NodeId,
    schemas: Seq<Schema>,
    settings: ValidationSettings,
    depth: usize,
    j: int,
) -> Option<Seq<IssueKind>>
    decreases j,
{
    if j <= 0 {
        Some(Seq::empty())
    } else {
        match (all_of_kinds(document, node, schemas, settings, depth, j - 1), direct_issue_kinds(
            document,
            node,
            schemas[j - 1],
            settings,
            (depth + 1) as usize,
        )) {
            (Some(a), Some(k)) => Some(a + k),
            _ => None,
        }
    }
}

/// The definition name a reference looks up: what follows `#/$defs/` or `#/`, else the
/// reference as written.
pub open spec fn ref_key(name: Seq<char>) -> Seq<char> {
    match crate::schema_compile::ref_target_spec(name) {
        Some(t) => t,
        None => name,
    }
}

/// Whether one of `defs` is named `key`.
pub open spec fn has_def(defs: Seq<(String, Schema)>, key: Seq<char>) -> bool {
    exists|i: int| 0 <= i < defs.len() && (#[trigger] defs[i]).0@ == key
}

/// Whether node `id` is a number scalar.
pub open spec fn number_node(document: Document, id: NodeId) -> bool {
    crate::schema_compile::scalar_value_at(document, id) matches Some(v) && (v is Int || v is Float)
}

/// The entries of mapping node `id` / the items of sequence node `id`.
pub open spec fn mapping_node(document: Document, id: NodeId) -> Option<Seq<(NodeId, NodeId)>> {
    crate::schema_compile::mapping_at(document.nodes@, id)
}

/// What validating `node` against a number, array, object, reference or `allOf` schema
/// (within the depth limit) adds to `before`, as far as it is decided without the number
/// answers and without other nodes: a node of the wrong kind gets one `TypeMismatch`; a number
/// gets only issues of the bounds the schema has; a sequence or mapping gets its size issues
/// first (and a mapping then one `RequiredMissing` per absent required name); a reference to no
/// definition gets `RefUnresolved`; and `allOf` raises the issues of each part in turn.
pub open spec fn form_checked(
    document: Document,
    node: NodeId,
    schema: Schema,
    defs: Seq<(String, Schema)>,
    settings: ValidationSettings,
    depth: usize,
    path: Seq<char>,
    before: Seq<ValidationIssue>,
    after: Seq<ValidationIssue>,
) -> bool {
    match schema {
        Schema::Number { minimum, maximum, exclusive_minimum, exclusive_maximum, multiple_of } => settings.numbers ==> (
        if number_node(document, node) {
            only_new(before, after, node, path, number_kinds(minimum, maximum, exclusive_minimum, exclusive_maximum, multiple_of))
        } else {
            appended(before, after, seq![IssueKind::TypeMismatch], node, path)
        }),
        Schema::Array { min_items, max_items, .. } => settings.arrays ==> match crate::schema_compile::items_at(
            document.nodes@,
            node,
        ) {
            None => appended(before, after, seq![IssueKind::TypeMismatch], node, path),
            Some(items) => {
                let k = size_kinds(items.len() as int, min_items, max_items, IssueKind::MinItems, IssueKind::MaxItems);
                &&& extends(before, after)
                &&& after.len() >= before.len() + k.len()
                &&& appended(before, after.take(before.len() + k.len() as int), k, node, path)
            },
        },
        Schema::Object { required, min_properties, max_properties, .. } => settings.objects ==> match mapping_node(document, node) {
            None => appended(before, after, seq![IssueKind::TypeMismatch], node, path),
            Some(entries) => {
                let k = size_kinds(
                    entries.len() as int,
                    min_properties,
                    max_properties,
                    IssueKind::MinProperties,
                    IssueKind::MaxProperties,
                ) + required_kinds(document, entries, required@, required@.len() as int);
                &&& extends(before, after)
                &&& after.len() >= before.len() + k.len()
                &&& appended(before, after.take(before.len() + k.len() as int), k, node, path)
            },
        },
        Schema::Ref(name) => (settings.refs && !has_def(defs, ref_key(name@))) ==> appended(
            before,
            after,
            seq![IssueKind::RefUnresolved],
            node,
            path,
        ),
        Schema::AllOf(ss) => settings.combinators ==> (all_of_kinds(document, node, ss@, settings, depth, ss@.len() as int) matches Some(k)
            ==> appended(before, after, k, node, path)),
        _ => true,
    }
}

/// What validating `node` against `schema` from the top (depth 0, empty path, no issues yet)
/// gives as its issue list `v`, as far as the validator decides it without the number answers
/// and without other nodes (see `direct_issue_kinds` and `form_checked`).
pub open spec fn root_outcome(
    document: Document,
    node: NodeId,
    schema: Schema,
    defs: Seq<(String, Schema)>,
    settings: ValidationSettings,
    v: Seq<ValidationIssue>,
) -> bool {
    &&& direct_issue_kinds(document, node, schema, settings, 0) matches Some(k) ==> appended(
        Seq::empty(),
        v,
        k,
        node,
        Seq::empty(),
    )
    &&& form_checked(document, node, schema, defs, settings, 0, Seq::empty(), Seq::empty(), v)
}

/// Whether each of `schemas` is decided directly at depth `depth + 1`.
pub open spec fn all_base(document: Document, node: NodeId, schemas: Seq<Schema>, settings: ValidationSettings, depth: usize) -> bool {
    forall|i: int| 0 <= i < schemas.len() ==> (#[trigger] base_issue_kinds(document, node, schemas[i], settings, (depth + 1) as usize)) is Some
}

/// The kinds of the issues validation raises at `node`, for the schemas it decides without
/// number semantics or other nodes: those of `base_issue_kinds`; a schema whose check group is
/// off (none); and `not`, `oneOf` and `anyOf` over such schemas: `not` fails when its schema
/// passes, `oneOf` when none or more than one passes, `anyOf` when none passes.
pub open spec fn direct_issue_kinds(
    document: Document,
    node: NodeId,
    schema: Schema,
    settings: ValidationSettings,
    depth: usize,
) -> Option<Seq<IssueKind>> {
    if depth > settings.max_depth {
        Some(seq![IssueKind::DepthExceeded])
    } else {
        match schema {
            Schema::Not(inner) => if !settings.combinators {
                Some(Seq::empty())
            } else {
                match base_issue_kinds(document, node, *inner, settings, (depth + 1) as usize) {
                    Some(k) => Some(if k.len() == 0 { seq![IssueKind::NotMatched] } else { Seq::empty() }),
                    None => None,
                }
            },
            Schema::OneOf(ss) => if !settings.combinators {
                Some(Seq::empty())
            } else if all_base(document, node, ss@, settings, depth) {
                let c = count_direct(document, node, ss@, settings, depth, ss@.len() as int, true);
                Some(
                    if c == 0 {
                        seq![IssueKind::OneOfMismatch]
                    } else if c > 1 {
                        seq![IssueKind::OneOfAmbiguous]
                    } else {
                        Seq::empty()
                    },
                )
            } else {
                None
            },
            Schema::AnyOf(ss) => if !settings.combinators {
                Some(Seq::empty())
            } else if all_base(document, node, ss@, settings, depth) {
                let c = count_direct(document, node, ss@, settings, depth, ss@.len() as int, true);
                Some(if c == 0 { seq![IssueKind::AnyOfMismatch] } else { Seq::empty() })
            } else {
                None
            },
            Schema::AllOf(_) => if !settings.combinators { Some(Seq::empty()) } else { None },
            Schema::Enum(values) => if !settings.enums {
                Some(Seq::empty())
            } else if forall|k: int| 0 <= k < values@.len() ==> !(#[trigger] values@[k] is Number) {
                Some(
                    if exists|k: int| 0 <= k < values@.len() && enum_hit(#[trigger] values@[k], document, node) {
                        Seq::empty()
                    } else {
                        seq![IssueKind::EnumMismatch]
                    },
                )
            } else {
                None
            },
            Schema::Const(value) => if !settings.enums {
                Some(Seq::empty())
            } else if !(value is Number) {
                Some(if enum_hit(value, document, node) { Seq::empty() } else { seq![IssueKind::ConstMismatch] })
            } else {
                None
            },
            Schema::Number { .. } => if !settings.numbers { Some(Seq::empty()) } else { None },
            Schema::Array { .. } => if !settings.arrays { Some(Seq::empty()) } else { None },
            Schema::Object { .. } => if !settings.objects { Some(Seq::empty()) } else { None },
            Schema::Ref(_) => if !settings.refs { Some(Seq::empty()) } else { None },
            _ => base_issue_kinds(document, node, schema, settings, depth),
        }
    }
}

/// A schema decided directly by `base_issue_kinds` is decided the same by `direct_issue_kinds`.
proof fn lemma_base_direct(document: Document, node: NodeId, schema: Schema, settings: ValidationSettings, depth: usize)
    requires
        base_issue_kinds(document, node, schema, settings, depth) is Some,
    ensures
        direct_issue_kinds(document, node, schema, settings, depth) == base_issue_kinds(document, node, schema, settings, depth),
{
}

/// Over schemas all decided directly, each one passes or fails.
proof fn lemma_count_all_base(
    document: Document,
    node: NodeId,
    ss: Seq<Schema>,
    settings: ValidationSettings,
    depth: usize,
    j: int,
)
    requires
        all_base(document, node, ss, settings, depth),
        0 <= j <= ss.len(),
    ensures
        count_direct(document, node, ss, settings, depth, j, true) + count_direct(document, node, ss, settings, depth, j, false) == j,
    decreases j,
{
    if j > 0 {
        lemma_count_all_base(document, node, ss, settings, depth, j - 1);
        assert(base_issue_kinds(document, node, ss[j - 1], settings, (depth + 1) as usize) is Some);
    }
}

/// Records an issue and keeps the span law.
fn raise(document: &Document, settings: &ValidationSettings, node: NodeId, path: &String, kind: IssueKind, message: String, issues: &mut Vec<ValidationIssue>)
    requires
        issues_carry_spans(*document, old(issues)@),
        issues_gated(*settings, old(issues)@),
        kind_enabled(*settings, kind),
    ensures
        issues_carry_spans(*document, final(issues)@),
        issues_gated(*settings, final(issues)@),
        final(issues)@.len() == old(issues)@.len() + 1,
        appended(old(issues)@, final(issues)@, seq![kind], node, path@),
        extends(old(issues)@, final(issues)@),
{
    let ghost before = issues@;
    issue(document, node, path, kind, message, issues);
    proof {
        assert(issues@.take(before.len() as int) =~= before);
        lemma_push_keeps_spans(*document, before, issues@);
        assert forall|i: int| 0 <= i < issues@.len() implies kind_enabled(*settings, (#[trigger] issues@[i]).kind) by {
            if i < before.len() {
                assert(issues@[i] == before[i]);
            }
        }
    }
}

/// The string checks: the node must be a string; then its length in characters and the
/// pattern.
fn check_string(
    document: &Document,
    settings: &ValidationSettings,
    node: NodeId,
    min_length: Option<usize>,
    max_length: Option<usize>,
    pattern: &Option<crate::pattern::Pattern>,
    path: &String,
    issues: &mut Vec<ValidationIssue>,
)
    requires
        settings.strings,
        document.wf(),
        issues_carry_spans(*document, old(issues)@),
        issues_gated(*settings, old(issues)@),
    ensures
        extends(old(issues)@, final(issues)@),
        issues_carry_spans(*document, final(issues)@),
        issues_gated(*settings, final(issues)@),
        appended(
            old(issues)@,
            final(issues)@,
            string_issue_kinds(*document, node, min_length, max_length, pattern_view(*pattern)),
            node,
            path@,
        ),
{
    let ghost start = issues@;
    let t = JsonType::of_node(document, node);
    if t != Some(JsonType::String) {
        raise(document, settings, node, path, IssueKind::TypeMismatch, concat("expected string, found ", name_of_type(t)), issues);
        return;
    }
    let text = match scalar_key(document, node) {
        Some(s) => s,
        None => {
            proof {
                lemma_appended_none(start, node, path@);
            }
            return;
        },
    };
    let count = chars_of(text.as_str()).len();
    let ghost k1: Seq<IssueKind> = Seq::empty();
    proof {
        lemma_appended_none(start, node, path@);
    }
    if let Some(min) = min_length {
        if count < min {
            let ghost mid = issues@;
            raise(document, settings, node, path, IssueKind::MinLength, concat("shorter than ", decimal_string(min).as_str()), issues);
            proof {
                lemma_appended_step(start, mid, issues@, k1, seq![IssueKind::MinLength], node, path@);
                k1 = k1 + seq![IssueKind::MinLength];
            }
        }
    }
    let ghost k2 = k1;
    if let Some(max) = max_length {
        if count > max {
            let ghost mid = issues@;
            raise(document, settings, node, path, IssueKind::MaxLength, concat("longer than ", decimal_string(max).as_str()), issues);
            proof {
                lemma_appended_step(start, mid, issues@, k1, seq![IssueKind::MaxLength], node, path@);
                k2 = k1 + seq![IssueKind::MaxLength];
            }
        }
    }
    let ghost k3 = k2;
    if let Some(pat) = pattern {
        if !pat.is_match(text.as_str()) {
            let ghost mid = issues@;
            raise(document, settings, node, path, IssueKind::PatternMismatch, "string does not match pattern".to_string(), issues);
            proof {
                lemma_appended_step(start, mid, issues@, k2, seq![IssueKind::PatternMismatch], node, path@);
                k3 = k2 + seq![IssueKind::PatternMismatch];
            }
        }
    }
    proof {
        let expected = string_issue_kinds(*document, node, min_length, max_length, pattern_view(*pattern));
        assert(k3 =~= expected);
    }
}

/// `<value> <relation> <bound>` for a number message.
fn number_message<N: NumberSemantics>(numbers: &N, value: &Number, relation: &str, bound: &Number) -> (r: String)
    ensures
        exists|a: Seq<char>, b: Seq<char>| r@ == a + relation@ + b,
{
    let mut v: Vec<char> = Vec::new();
    push_text(&mut v, numbers.display(value).as_str());
    push_text(&mut v, relation);
    let ghost a = v@.take(v@.len() - relation@.len());
    let shown = numbers.display(bound);
    let ghost before = v@;
    push_text(&mut v, shown.as_str());
    assert(v@ == a + relation@ + shown@) by {
        assert(before =~= a + relation@);
    }
    string_from_chars(v.as_slice())
}

/// The number checks: the node must be a number; then its bounds and step, compared as
/// doubles.
fn check_number<N: NumberSemantics>(
    document: &Document,
    settings: &ValidationSettings,
    node: NodeId,
    minimum: &Option<Number>,
    maximum: &Option<Number>,
    exclusive_minimum: &Option<Number>,
    exclusive_maximum: &Option<Number>,
    multiple_of: &Option<Number>,
    path: &String,
    issues: &mut Vec<ValidationIssue>,
    numbers: &N,
)
    requires
        settings.numbers,
        document.wf(),
        issues_carry_spans(*document, old(issues)@),
        issues_gated(*settings, old(issues)@),
    ensures
        extends(old(issues)@, final(issues)@),
        issues_carry_spans(*document, final(issues)@),
        issues_gated(*settings, final(issues)@),
        !(crate::schema_compile::scalar_value_at(*document, node) matches Some(v) && (v is Int || v is Float)) ==> appended(
            old(issues)@,
            final(issues)@,
            seq![IssueKind::TypeMismatch],
            node,
            path@,
        ),
        crate::schema_compile::scalar_value_at(*document, node) matches Some(v) && (v is Int || v is Float) ==> only_new(
            old(issues)@,
            final(issues)@,
            node,
            path@,
            number_kinds(*minimum, *maximum, *exclusive_minimum, *exclusive_maximum, *multiple_of),
        ),
{
    let ghost start = issues@;
    let ghost allowed = number_kinds(*minimum, *maximum, *exclusive_minimum, *exclusive_maximum, *multiple_of);
    let value = match node_number(document, node) {
        Some(v) => v,
        None => {
            let t = JsonType::of_node(document, node);
            raise(document, settings, node, path, IssueKind::TypeMismatch, concat("expected number, found ", name_of_type(t)), issues);
            return;
        },
    };
    proof {
        lemma_extends_refl(start);
    }
    if let Some(bound) = minimum {
        if numbers.compare(&value, bound) == NumberOrder::Less {
            let ghost mid = issues@;
            raise(document, settings, node, path, IssueKind::Minimum, number_message(numbers, &value, " below ", bound), issues);
            proof {
                lemma_only_new_step(start, mid, issues@, node, path@, allowed, IssueKind::Minimum);
            }
        }
    }
    if let Some(bound) = maximum {
        if numbers.compare(&value, bound) == NumberOrder::Greater {
            let ghost mid = issues@;
            raise(document, settings, node, path, IssueKind::Maximum, number_message(numbers, &value, " above ", bound), issues);
            proof {
                lemma_only_new_step(start, mid, issues@, node, path@, allowed, IssueKind::Maximum);
            }
        }
    }
    if let Some(bound) = exclusive_minimum {
        let o = numbers.compare(&value, bound);
        if o == NumberOrder::Less || o == NumberOrder::Equal {
            let ghost mid = issues@;
            raise(document, settings, node, path, IssueKind::ExclusiveMinimum, number_message(numbers, &value, " at or below ", bound), issues);
            proof {
                lemma_only_new_step(start, mid, issues@, node, path@, allowed, IssueKind::ExclusiveMinimum);
            }
        }
    }
    if let Some(bound) = exclusive_maximum {
        let o = numbers.compare(&value, bound);
        if o == NumberOrder::Greater || o == NumberOrder::Equal {
            let ghost mid = issues@;
            raise(document, settings, node, path, IssueKind::ExclusiveMaximum, number_message(numbers, &value, " at or above ", bound), issues);
            proof {
                lemma_only_new_step(start, mid, issues@, node, path@, allowed, IssueKind::ExclusiveMaximum);
            }
        }
    }
    if let Some(step) = multiple_of {
        if numbers.misses_multiple(&value, step) {
            let ghost mid = issues@;
            raise(document, settings, node, path, IssueKind::MultipleOf, number_message(numbers, &value, " not a multiple of ", step), issues);
            proof {
                lemma_only_new_step(start, mid, issues@, node, path@, allowed, IssueKind::MultipleOf);
            }
        }
    }
}

/// Validates the items of a sequence node against `items`, extending the path by each index.
fn check_items<N: NumberSemantics>(
    document: &Document,
    elements: &Vec<NodeId>,
    items: &Schema,
    defs: &Vec<(String, Schema)>,
    settings: &ValidationSettings,
    depth: usize,
    path: &mut String,
    issues: &mut Vec<ValidationIssue>,
    numbers: &N,
)
    requires
        step_ok(*document, *settings, depth, old(issues)@),
    ensures
        final(path)@ == old(path)@,
        extends(old(issues)@, final(issues)@),
        direct_total(*document, elements@, *items, *settings, depth, elements@.len() as int) matches Some(n) ==> (final(issues)@.len() == old(issues)@.len() + n),
        issues_carry_spans(*document, final(issues)@),
        issues_gated(*settings, final(issues)@),
    decreases settings.max_depth + 1 - depth, 0int,
{
    let ghost start = issues@;
    proof {
        lemma_extends_refl(start);
    }
    let mut i: usize = 0;
    while i < elements.len()
        invariant
            path@ == old(path)@,
            step_ok(*document, *settings, depth, issues@),
            extends(start, issues@),
            i <= elements@.len(),
            direct_total(*document, elements@, *items, *settings, depth, i as int) matches Some(n) ==> (issues@.len()
                == start.len() + n),
            i <= elements@.len(),
        decreases elements@.len() - i,
    {
        let segment = decimal_string(i);
        push_segment(path, segment.as_str());
        let ghost mid = issues@;
        validate_node(document, elements[i], items, defs, settings, depth + 1, path, issues, numbers);
        proof {
            lemma_extends_trans(start, mid, issues@);
        }
        pop_path(path, segment.as_str());
        proof {
            crate::schema::lemma_pop_push(old(path)@, segment@);
        }
        i = i + 1;
    }
}

/// The array checks: the node must be a sequence; then its length, its items' uniqueness and
/// each item against `items`.
fn check_array<N: NumberSemantics>(
    document: &Document,
    node: NodeId,
    items: &Option<Box<Schema>>,
    min_items: Option<usize>,
    max_items: Option<usize>,
    unique_items: bool,
    defs: &Vec<(String, Schema)>,
    settings: &ValidationSettings,
    depth: usize,
    path: &mut String,
    issues: &mut Vec<ValidationIssue>,
    numbers: &N,
)
    requires
        settings.arrays,
        step_ok(*document, *settings, depth, old(issues)@),
    ensures
        final(path)@ == old(path)@,
        issues_carry_spans(*document, final(issues)@),
        issues_gated(*settings, final(issues)@),
        !((node.0 as int) < document.nodes@.len() && document.nodes@[node.0 as int].kind is Sequence) ==> appended(
            old(issues)@,
            final(issues)@,
            seq![IssueKind::TypeMismatch],
            node,
            old(path)@,
        ),
        (node.0 as int) < document.nodes@.len() && document.nodes@[node.0 as int].kind is Sequence ==> ({
            let k = size_kinds(
                document.nodes@[node.0 as int].kind->Sequence_0@.len() as int,
                min_items,
                max_items,
                IssueKind::MinItems,
                IssueKind::MaxItems,
            );
            &&& extends(old(issues)@, final(issues)@)
            &&& final(issues)@.len() >= old(issues)@.len() + k.len()
            &&& appended(old(issues)@, final(issues)@.take(old(issues)@.len() + k.len() as int), k, node, old(path)@)
        }),
    decreases settings.max_depth + 1 - depth, 1int,
{
    let ghost start = issues@;
    let ghost p0 = path@;
    let elements = match document.node(node) {
        Some(n) => match &n.kind {
            NodeKind::Sequence(e) => e,
            _ => {
                let t = JsonType::of_node(document, node);
                raise(document, settings, node, path, IssueKind::TypeMismatch, concat("expected array, found ", name_of_type(t)), issues);
                return;
            },
        },
        None => {
            let t = JsonType::of_node(document, node);
            raise(document, settings, node, path, IssueKind::TypeMismatch, concat("expected array, found ", name_of_type(t)), issues);
            return;
        },
    };
    let ghost k0: Seq<IssueKind> = Seq::empty();
    proof {
        lemma_appended_none(start, node, path@);
    }
    let ghost mut k1 = k0;
    if let Some(min) = min_items {
        if elements.len() < min {
            let ghost mid = issues@;
            raise(document, settings, node, path, IssueKind::MinItems, concat(concat("fewer than ", decimal_string(min).as_str()).as_str(), " items"), issues);
            proof {
                lemma_appended_step(start, mid, issues@, k0, seq![IssueKind::MinItems], node, path@);
                k1 = k0 + seq![IssueKind::MinItems];
            }
        }
    }
    let ghost mut k2 = k1;
    if let Some(max) = max_items {
        if elements.len() > max {
            let ghost mid = issues@;
            raise(document, settings, node, path, IssueKind::MaxItems, concat(concat("more than ", decimal_string(max).as_str()).as_str(), " items"), issues);
            proof {
                lemma_appended_step(start, mid, issues@, k1, seq![IssueKind::MaxItems], node, path@);
                k2 = k1 + seq![IssueKind::MaxItems];
            }
        }
    }
    let ghost sized = issues@;
    proof {
        assert(k2 =~= size_kinds(elements@.len() as int, min_items, max_items, IssueKind::MinItems, IssueKind::MaxItems));
        lemma_extends_refl(sized);
    }
    if unique_items {
        let mut dup_found = false;
        let mut i: usize = 0;
        while i < elements.len() && !dup_found
            invariant
                path@ == old(path)@,
                extends(sized, issues@),
                settings.arrays,
                document.wf(),
                issues_carry_spans(*document, issues@),
                issues_gated(*settings, issues@),
                i <= elements@.len(),
            decreases elements@.len() - i,
        {
            let mut j: usize = i + 1;
            while j < elements.len()
                invariant
                    path@ == old(path)@,
                    extends(sized, issues@),
                    settings.arrays,
                    document.wf(),
                    issues_carry_spans(*document, issues@),
                    issues_gated(*settings, issues@),
                    i < elements@.len(),
                    i + 1 <= j <= elements@.len(),
                decreases elements@.len() - j,
            {
                if nodes_equal(document, elements[i], elements[j], numbers) {
                    let ghost mid = issues@;
                    raise(document, settings, node, path, IssueKind::UniqueItems, "duplicate items".to_string(), issues);
                    proof {
                        lemma_extends_trans(sized, mid, issues@);
                    }
                    dup_found = true;
                    break;
                }
                j = j + 1;
            }
            i = i + 1;
        }
    }
    if let Some(items) = items {
        let ghost mid = issues@;
        check_items(document, elements, items, defs, settings, depth, path, issues, numbers);
        proof {
            lemma_extends_trans(sized, mid, issues@);
        }
    }
    proof {
        lemma_prefix_appended(start, sized, issues@, k2, node, p0);
    }
}

/// The first property schema named `name`.
fn find_property<'a>(properties: &'a Vec<(String, Schema)>, name: &str) -> (r: Option<&'a Schema>)
    ensures
        match r {
            Some(sc) => exists|i: int|
                0 <= i < properties@.len() && (#[trigger] properties@[i]).0@ == name@ && *sc == properties@[i].1 && forall|j: int|
                    0 <= j < i ==> (#[trigger] properties@[j]).0@ != name@,
            None => forall|j: int| 0 <= j < properties@.len() ==> (#[trigger] properties@[j]).0@ != name@,
        },
{
    let mut i: usize = 0;
    while i < properties.len()
        invariant
            i <= properties@.len(),
            forall|j: int| 0 <= j < i ==> (#[trigger] properties@[j]).0@ != name@,
        decreases properties@.len() - i,
    {
        if same_text(properties[i].0.as_str(), name) {
            return Some(&properties[i].1);
        }
        i = i + 1;
    }
    None
}

/// Validates a property value under `name`, extending the path by it.
fn check_property<N: NumberSemantics>(
    document: &Document,
    value: NodeId,
    name: &String,
    schema: &Schema,
    defs: &Vec<(String, Schema)>,
    settings: &ValidationSettings,
    depth: usize,
    path: &mut String,
    issues: &mut Vec<ValidationIssue>,
    numbers: &N,
)
    requires
        step_ok(*document, *settings, depth, old(issues)@),
    ensures
        final(path)@ == old(path)@,
        extends(old(issues)@, final(issues)@),
        direct_issue_kinds(*document, value, *schema, *settings, (depth + 1) as usize) matches Some(k) ==> appended(
            old(issues)@,
            final(issues)@,
            k,
            value,
            if old(path)@.len() > 0 { old(path)@.push('.') + name@ } else { name@ },
        ),
        issues_carry_spans(*document, final(issues)@),
        issues_gated(*settings, final(issues)@),
    decreases settings.max_depth + 1 - depth, 0int,
{
    push_segment(path, name.as_str());
    validate_node(document, value, schema, defs, settings, depth + 1, path, issues, numbers);
    pop_path(path, name.as_str());
    proof {
        crate::schema::lemma_pop_push(old(path)@, name@);
    }
}

/// The object checks: the node must be a mapping; then its size, its required properties, and
/// each property against its schema or the `additionalProperties` policy.
fn check_object<N: NumberSemantics>(
    document: &Document,
    node: NodeId,
    properties: &Vec<(String, Schema)>,
    required: &Vec<String>,
    additional: &Additional,
    min_properties: Option<usize>,
    max_properties: Option<usize>,
    defs: &Vec<(String, Schema)>,
    settings: &ValidationSettings,
    depth: usize,
    path: &mut String,
    issues: &mut Vec<ValidationIssue>,
    numbers: &N,
)
    requires
        settings.objects,
        step_ok(*document, *settings, depth, old(issues)@),
    ensures
        final(path)@ == old(path)@,
        issues_carry_spans(*document, final(issues)@),
        issues_gated(*settings, final(issues)@),
        !((node.0 as int) < document.nodes@.len() && document.nodes@[node.0 as int].kind is Mapping) ==> appended(
            old(issues)@,
            final(issues)@,
            seq![IssueKind::TypeMismatch],
            node,
            old(path)@,
        ),
        (node.0 as int) < document.nodes@.len() && document.nodes@[node.0 as int].kind is Mapping ==> ({
            let k = size_kinds(
                document.nodes@[node.0 as int].kind->Mapping_0@.len() as int,
                min_properties,
                max_properties,
                IssueKind::MinProperties,
                IssueKind::MaxProperties,
            ) + required_kinds(*document, document.nodes@[node.0 as int].kind->Mapping_0@, required@, required@.len() as int);
            &&& extends(old(issues)@, final(issues)@)
            &&& final(issues)@.len() >= old(issues)@.len() + k.len()
            &&& appended(old(issues)@, final(issues)@.take(old(issues)@.len() + k.len() as int), k, node, old(path)@)
        }),
    decreases settings.max_depth + 1 - depth, 1int,
{
    let ghost start = issues@;
    let ghost p0 = path@;
    let entries = match document.node(node) {
        Some(n) => match &n.kind {
            NodeKind::Mapping(e) => e,
            _ => {
                let t = JsonType::of_node(document, node);
                raise(document, settings, node, path, IssueKind::TypeMismatch, concat("expected object, found ", name_of_type(t)), issues);
                return;
            },
        },
        None => {
            let t = JsonType::of_node(document, node);
            raise(document, settings, node, path, IssueKind::TypeMismatch, concat("expected object, found ", name_of_type(t)), issues);
            return;
        },
    };
    let ghost k0: Seq<IssueKind> = Seq::empty();
    proof {
        lemma_appended_none(start, node, path@);
    }
    let ghost mut k1 = k0;
    if let Some(min) = min_properties {
        if entries.len() < min {
            let ghost mid = issues@;
            raise(document, settings, node, path, IssueKind::MinProperties, concat(concat("fewer than ", decimal_string(min).as_str()).as_str(), " properties"), issues);
            proof {
                lemma_appended_step(start, mid, issues@, k0, seq![IssueKind::MinProperties], node, path@);
                k1 = k0 + seq![IssueKind::MinProperties];
            }
        }
    }
    let ghost mut k2 = k1;
    if let Some(max) = max_properties {
        if entries.len() > max {
            let ghost mid = issues@;
            raise(document, settings, node, path, IssueKind::MaxProperties, concat(concat("more than ", decimal_string(max).as_str()).as_str(), " properties"), issues);
            proof {
                lemma_appended_step(start, mid, issues@, k1, seq![IssueKind::MaxProperties], node, path@);
                k2 = k1 + seq![IssueKind::MaxProperties];
            }
        }
    }
    let ghost sized = issues@;
    proof {
        assert(k2 =~= size_kinds(entries@.len() as int, min_properties, max_properties, IssueKind::MinProperties, IssueKind::MaxProperties));
        lemma_extends_refl(sized);
    }
    proof {
        lemma_appended_none(sized, node, p0);
    }
    let ghost base = issues@;
    let mut r: usize = 0;
    while r < required.len()
        invariant
            path@ == old(path)@,
            p0 == old(path)@,
            extends(sized, issues@),
            appended(base, issues@, required_kinds(*document, entries@, required@, r as int), node, p0),
            appended(start, base, k2, node, p0),
            settings.objects,
            document.wf(),
            issues_carry_spans(*document, issues@),
            issues_gated(*settings, issues@),
            r <= required@.len(),
        decreases required@.len() - r,
    {
        let name = &required[r];
        let mut present = false;
        let mut k: usize = 0;
        while k < entries.len()
            invariant_except_break
                !present,
                forall|q: int| 0 <= q < k ==> crate::schema_compile::scalar_text_of(*document, (#[trigger] entries@[q]).0) != Some(name@),
            invariant
                path@ == old(path)@,
                extends(sized, issues@),
                settings.objects,
                k <= entries@.len(),
            ensures
                path@ == old(path)@,
                extends(sized, issues@),
                present == key_present(*document, entries@, name@),
            decreases entries@.len() - k,
        {
            if let Some(key) = scalar_key(document, entries[k].0) {
                if same_text(key.as_str(), name.as_str()) {
                    present = true;
                    break;
                }
            }
            k = k + 1;
        }
        if !present {
            let msg = concat(concat("required property `", name.as_str()).as_str(), "` missing");
            let ghost mid = issues@;
            raise(document, settings, node, path, IssueKind::RequiredMissing, msg, issues);
            proof {
                lemma_extends_trans(sized, mid, issues@);
                lemma_appended_step(base, mid, issues@, required_kinds(*document, entries@, required@, r as int), seq![IssueKind::RequiredMissing], node, p0);
            }
        } else {
            proof {
                assert(required_kinds(*document, entries@, required@, r as int) + Seq::<IssueKind>::empty() =~= required_kinds(*document, entries@, required@, r as int));
            }
        }
        assert(required_kinds(*document, entries@, required@, r + 1) == required_kinds(*document, entries@, required@, r as int) + (if key_present(*document, entries@, required@[r as int]@) { Seq::<IssueKind>::empty() } else { seq![IssueKind::RequiredMissing] }));
        r = r + 1;
    }
    let ghost reqd = issues@;
    proof {
        lemma_appended_step(start, base, reqd, k2, required_kinds(*document, entries@, required@, required@.len() as int), node, p0);
        lemma_extends_refl(reqd);
    }
    let mut e: usize = 0;
    while e < entries.len()
        invariant
            path@ == old(path)@,
            extends(sized, issues@),
            settings.objects,
            step_ok(*document, *settings, depth, issues@),
            e <= entries@.len(),
            extends(reqd, issues@),
        decreases entries@.len() - e,
    {
        let (key_id, value_id) = entries[e];
        if let Some(name) = scalar_key(document, key_id) {
            match find_property(properties, name.as_str()) {
                Some(prop_schema) => {
                    let ghost mid = issues@;
                    check_property(document, value_id, &name, prop_schema, defs, settings, depth, path, issues, numbers);
                    proof {
                        lemma_extends_trans(sized, mid, issues@);
                        lemma_extends_trans(reqd, mid, issues@);
                    }
                },
                None => match additional {
                    Additional::Forbid => {
                        let msg = concat(concat("property `", name.as_str()).as_str(), "` not allowed");
                        let ghost mid = issues@;
                        raise(document, settings, node, path, IssueKind::AdditionalProperty, msg, issues);
                        proof {
                            lemma_extends_trans(sized, mid, issues@);
                            lemma_extends_trans(reqd, mid, issues@);
                        }
                    },
                    Additional::Schema(prop_schema) => {
                        let ghost mid = issues@;
                        check_property(document, value_id, &name, prop_schema, defs, settings, depth, path, issues, numbers);
                        proof {
                            lemma_extends_trans(sized, mid, issues@);
                            lemma_extends_trans(reqd, mid, issues@);
                        }
                    },
                    Additional::Allow => {},
                },
            }
        }
        e = e + 1;
    }
    proof {
        lemma_prefix_appended(start, reqd, issues@, k2 + required_kinds(*document, entries@, required@, required@.len() as int), node, p0);
    }
}

/// Validates `node` against each of `schemas` on its own and counts those it satisfies.
fn count_matches<N: NumberSemantics>(
    document: &Document,
    node: NodeId,
    schemas: &Vec<Schema>,
    defs: &Vec<(String, Schema)>,
    settings: &ValidationSettings,
    depth: usize,
    path: &mut String,
    numbers: &N,
) -> (r: usize)
    requires
        document.wf(),
        settings.max_depth < usize::MAX,
        depth <= settings.max_depth,
    ensures
        final(path)@ == old(path)@,
        r <= schemas@.len(),
        count_direct(*document, node, schemas@, *settings, depth, schemas@.len() as int, true) <= r,
        r <= schemas@.len() - count_direct(*document, node, schemas@, *settings, depth, schemas@.len() as int, false),
    decreases settings.max_depth + 1 - depth, 0int,
{
    let mut matches: usize = 0;
    let mut i: usize = 0;
    while i < schemas.len()
        invariant
            path@ == old(path)@,
            document.wf(),
            settings.max_depth < usize::MAX,
            depth <= settings.max_depth,
            i <= schemas@.len(),
            matches <= i,
            count_direct(*document, node, schemas@, *settings, depth, i as int, true) <= matches,
            matches <= i - count_direct(*document, node, schemas@, *settings, depth, i as int, false),
        decreases schemas@.len() - i,
    {
        let mut sub: Vec<ValidationIssue> = Vec::new();
        validate_node(document, node, &schemas[i], defs, settings, depth + 1, path, &mut sub, numbers);
        proof {
            if base_issue_kinds(*document, node, schemas@[i as int], *settings, (depth + 1) as usize) is Some {
                lemma_base_direct(*document, node, schemas@[i as int], *settings, (depth + 1) as usize);
            }
        }
        if sub.len() == 0 {
            matches = matches + 1;
        }
        i = i + 1;
    }
    matches
}

/// Validates `node` against `schema`, appending what fails to `issues`. `path` is the dotted
/// path of `node` from the validated root, and `depth` how deep references and combinators
/// have nested; past `settings.max_depth` the node gets a `DepthExceeded` issue instead.
#[verifier::rlimit(80)]
fn validate_node<N: NumberSemantics>(
    document: &Document,
    node: NodeId,
    schema: &Schema,
    defs: &Vec<(String, Schema)>,
    settings: &ValidationSettings,
    depth: usize,
    path: &mut String,
    issues: &mut Vec<ValidationIssue>,
    numbers: &N,
)
    requires
        document.wf(),
        settings.max_depth < usize::MAX,
        depth <= settings.max_depth + 1,
        issues_carry_spans(*document, old(issues)@),
        issues_gated(*settings, old(issues)@),
    ensures
        final(path)@ == old(path)@,
        extends(old(issues)@, final(issues)@),
        issues_carry_spans(*document, final(issues)@),
        issues_gated(*settings, final(issues)@),
        direct_issue_kinds(*document, node, *schema, *settings, depth) matches Some(k) ==> appended(
            old(issues)@,
            final(issues)@,
            k,
            node,
            old(path)@,
        ),
        depth <= settings.max_depth ==> form_checked(*document, node, *schema, defs@, *settings, depth, old(path)@, old(issues)@, final(issues)@),
    decreases settings.max_depth + 1 - depth, 2int,
{
    if depth > settings.max_depth {
        raise(document, settings, node, path, IssueKind::DepthExceeded, "recursion limit".to_string(), issues);
        return;
    }
    proof {
        lemma_appended_none(issues@, node, path@);
    }
    match schema {
        Schema::Constant(ok) => {
            if !*ok {
                raise(document, settings, node, path, IssueKind::NotMatched, "`false` schema".to_string(), issues);
            }
        },
        Schema::Type(json_type) => {
            if settings.types {
                let actual = JsonType::of_node(document, node);
                if actual.is_none() {
                    raise(document, settings, node, path, IssueKind::RefCycle, "alias could not resolve".to_string(), issues);
                } else if actual != Some(*json_type) {
                    let mut v: Vec<char> = Vec::new();
                    push_text(&mut v, "expected ");
                    push_text(&mut v, json_type.name());
                    push_text(&mut v, ", found ");
                    push_text(&mut v, name_of_type(actual));
                    raise(document, settings, node, path, IssueKind::TypeMismatch, string_from_chars(v.as_slice()), issues);
                }
            }
        },
        Schema::Enum(values) => {
            if settings.enums {
                let mut any = false;
                let mut i: usize = 0;
                while i < values.len()
                    invariant_except_break
                        !any,
                        forall|k: int| 0 <= k < i ==> !(#[trigger] values@[k] is Number) ==> !enum_hit(values@[k], *document, node),
                    invariant
                        path@ == old(path)@,
                        i <= values@.len(),
                    ensures
                        path@ == old(path)@,
                        any ==> exists|k: int| 0 <= k < values@.len() && ((#[trigger] values@[k]) is Number || enum_hit(values@[k], *document, node)),
                        !any ==> forall|k: int| 0 <= k < values@.len() ==> !(#[trigger] values@[k] is Number) ==> !enum_hit(values@[k], *document, node),
                    decreases values@.len() - i,
                {
                    if enum_matches(&values[i], document, node, numbers) {
                        any = true;
                        break;
                    }
                    i = i + 1;
                }
                if !any {
                    raise(document, settings, node, path, IssueKind::EnumMismatch, "value not in enum".to_string(), issues);
                }
            }
        },
        Schema::Const(value) => {
            if settings.enums && !enum_matches(value, document, node, numbers) {
                raise(document, settings, node, path, IssueKind::ConstMismatch, "value not equal to const".to_string(), issues);
            }
        },
        Schema::String { min_length, max_length, pattern } => {
            if settings.strings {
                check_string(document, settings, node, *min_length, *max_length, pattern, path, issues);
            }
        },
        Schema::Number { minimum, maximum, exclusive_minimum, exclusive_maximum, multiple_of } => {
            if settings.numbers {
                check_number(document, settings, node, minimum, maximum, exclusive_minimum, exclusive_maximum, multiple_of, path, issues, numbers);
            }
        },
        Schema::Array { items, min_items, max_items, unique_items } => {
            if settings.arrays {
                check_array(document, node, items, *min_items, *max_items, *unique_items, defs, settings, depth, path, issues, numbers);
            }
        },
        Schema::Object { properties, required, additional, min_properties, max_properties } => {
            if settings.objects {
                check_object(document, node, properties, required, additional, *min_properties, *max_properties, defs, settings, depth, path, issues, numbers);
            }
        },
        Schema::Not(inner) => {
            if settings.combinators {
                let mut sub: Vec<ValidationIssue> = Vec::new();
                validate_node(document, node, inner, defs, settings, depth + 1, path, &mut sub, numbers);
                proof {
                    if base_issue_kinds(*document, node, **inner, *settings, (depth + 1) as usize) is Some {
                        lemma_base_direct(*document, node, **inner, *settings, (depth + 1) as usize);
                    }
                }
                if sub.len() == 0 {
                    raise(document, settings, node, path, IssueKind::NotMatched, "matched `not` schema".to_string(), issues);
                }
            }
        },
        Schema::OneOf(schemas) => {
            if settings.combinators {
                let matches = count_matches(document, node, schemas, defs, settings, depth, path, numbers);
                proof {
                    if all_base(*document, node, schemas@, *settings, depth) {
                        lemma_count_all_base(*document, node, schemas@, *settings, depth, schemas@.len() as int);
                    }
                }
                if matches == 0 {
                    raise(document, settings, node, path, IssueKind::OneOfMismatch, "matched none of oneOf".to_string(), issues);
                } else if matches > 1 {
                    raise(document, settings, node, path, IssueKind::OneOfAmbiguous, "matched several of oneOf".to_string(), issues);
                }
            }
        },
        Schema::AnyOf(schemas) => {
            if settings.combinators {
                let matches = count_matches(document, node, schemas, defs, settings, depth, path, numbers);
                proof {
                    if all_base(*document, node, schemas@, *settings, depth) {
                        lemma_count_all_base(*document, node, schemas@, *settings, depth, schemas@.len() as int);
                    }
                }
                if matches == 0 {
                    raise(document, settings, node, path, IssueKind::AnyOfMismatch, "matched none of anyOf".to_string(), issues);
                }
            }
        },
        Schema::AllOf(schemas) => {
            if settings.combinators {
                let mut i: usize = 0;
                while i < schemas.len()
                    invariant
                        path@ == old(path)@,
                        document.wf(),
                        settings.max_depth < usize::MAX,
                        depth <= settings.max_depth,
                        issues_carry_spans(*document, issues@),
                        issues_gated(*settings, issues@),
                        i <= schemas@.len(),
                        extends(old(issues)@, issues@),
                        all_of_kinds(*document, node, schemas@, *settings, depth, i as int) matches Some(k) ==> appended(
                            old(issues)@,
                            issues@,
                            k,
                            node,
                            path@,
                        ),
                    decreases schemas@.len() - i,
                {
                    let mut sub: Vec<ValidationIssue> = Vec::new();
                    validate_node(document, node, &schemas[i], defs, settings, depth + 1, path, &mut sub, numbers);
                    let ghost before_part = issues@;
                    proof {
                        lemma_appended_none(before_part, node, path@);
                        assert(kinds_of(sub@).take(0) =~= Seq::<IssueKind>::empty());
                    }
                    let mut k: usize = 0;
                    while k < sub.len()
                        invariant
                            path@ == old(path)@,
                            issues_carry_spans(*document, issues@),
                            issues_gated(*settings, sub@),
                            issues_gated(*settings, issues@),
                            k <= sub@.len(),
                            extends(old(issues)@, issues@),
                            extends(old(issues)@, before_part),
                            appended(before_part, issues@, kinds_of(sub@).take(k as int), node, path@),
                        decreases sub@.len() - k,
                    {
                        let kind = sub[k].kind;
                        let message = sub[k].message.clone();
                        let ghost mid = issues@;
                        raise(document, settings, node, path, kind, message, issues);
                        proof {
                            lemma_extends_trans(old(issues)@, mid, issues@);
                            lemma_appended_step(before_part, mid, issues@, kinds_of(sub@).take(k as int), seq![kind], node, path@);
                            assert(kinds_of(sub@).take(k as int) + seq![kind] =~= kinds_of(sub@).take(k + 1));
                        }
                        k = k + 1;
                    }
                    proof {
                        assert(kinds_of(sub@).take(sub@.len() as int) =~= kinds_of(sub@));
                        let ghost prev = all_of_kinds(*document, node, schemas@, *settings, depth, i as int);
                        if let Some(a) = prev {
                            if let Some(k2) = direct_issue_kinds(*document, node, schemas@[i as int], *settings, (depth + 1) as usize) {
                                assert(kinds_of(sub@) =~= k2) by {
                                    assert forall|j: int| 0 <= j < k2.len() implies kinds_of(sub@)[j] == k2[j] by {
                                        assert(sub@[0 + j].kind == k2[j]);
                                    }
                                }
                                lemma_appended_step(old(issues)@, before_part, issues@, a, k2, node, path@);
                            }
                        }
                    }
                    i = i + 1;
                }
                proof {
                    assert(schemas@.len() == i);
                }
            }
        },
        Schema::Ref(name) => {
            if settings.refs {
                let key = match ref_target(name.as_str()) {
                    Some(k) => k,
                    None => name.clone(),
                };
                match find_def(defs, key.as_str()) {
                    Some(target) => {
                        validate_node(document, node, target, defs, settings, depth + 1, path, issues, numbers);
                    },
                    None => {
                        let msg = concat(concat("$ref `", name.as_str()).as_str(), "` not in $defs");
                        raise(document, settings, node, path, IssueKind::RefUnresolved, msg, issues);
                    },
                }
            }
        },
    }
}

/// A loaded schema document: the compiled root schema and its named definitions.
#[derive(Debug)]
pub struct SchemaDocument {
    pub root: Schema,
    pub defs: Vec<(String, Schema)>,
}

impl SchemaDocument {
    /// Loads a schema from YAML source. `floats` decides YAML 1.1 sexagesimal floats.
    pub fn from_yaml_str<R: SexagesimalFloats>(source: &str, floats: &R) -> (r: Result<SchemaDocument, Error>)
        requires
            byte_len(source@) <= isize::MAX,
        ensures
            r matches Ok(s) ==> crate::schema_compile::defs_distinct(s.defs@),
            source@.len() == 0 ==> (r matches Err(Error::InvalidSchema(m)) && m@ == "schema root must be a mapping"@),
            crate::lexer_spec::lex_spec(source@).1 is Some ==> r matches Err(Error::Parse(_)),
    {
        let document = match parse_with(source, &ParserOptions::default(), floats) {
            Ok(d) => d,
            Err(e) => {
                return Err(Error::from_yaml_error(&e));
            },
        };
        let root = match document.root() {
            Some(r) => r,
            None => {
                return Err(Error::InvalidSchema("empty document".to_string()));
            },
        };
        match compile_root(&document, root) {
            Ok((root, defs)) => Ok(SchemaDocument { root, defs }),
            Err(e) => Err(e),
        }
    }

    /// Loads a schema from JSON source, read by the JSON reader (`json_read`).
    pub fn from_json_str(source: &str) -> (r: Result<SchemaDocument, Error>)
        ensures
            json_read(source@) matches Err(m) ==> (r matches Err(Error::Parse(e)) && e@ == m),
            json_read(source@) matches Ok(v) ==> ({
                &&& !(v is Object) ==> (r matches Err(Error::InvalidSchema(m)) && m@ == "schema root must be an object"@)
                &&& (v matches JsonValue::Object(obj) && member_index(obj@, "$defs"@) matches Some(i) && !(obj@[i].1 is Object))
                    ==> (r matches Err(Error::InvalidSchema(m)) && m@ == "$defs must be an object"@)
                &&& v matches JsonValue::Object(obj) ==> (member_index(obj@, "$defs"@) is None ==> crate::schema_json::json_decided(
                    obj@,
                    Seq::empty(),
                    match r {
                        Ok(d) => Ok(d.root),
                        Err(e) => Err(e),
                    },
                ))
                &&& v matches JsonValue::Object(obj) ==> (member_index(obj@, "$defs"@) matches Some(k) ==> (
                obj@[k].1 matches JsonValue::Object(d) ==> (r matches Ok(sd) ==> crate::schema_json::defs_of_members(
                    d@,
                    crate::schema_json::member_names(d@),
                    sd.defs@,
                ) && crate::schema_json::json_decided(obj@, crate::schema_json::member_names(d@), Ok(sd.root)))))
                &&& v matches JsonValue::Object(obj) ==> (member_index(obj@, "$defs"@) is None
                    && crate::schema_json::string_text(obj@, "$ref"@) is None && crate::schema_json::string_text(obj@, "type"@)
                    is None ==> crate::schema_json::json_form_decided(
                    obj@,
                    Seq::empty(),
                    match r {
                        Ok(d) => Ok(d.root),
                        Err(e) => Err(e),
                    },
                ))
            }),
            r matches Ok(s) ==> crate::schema_compile::defs_distinct(s.defs@),
    {
        let value = match read_json(source) {
            Ok(v) => v,
            Err(m) => {
                return Err(Error::Parse(m));
            },
        };
        let (root, defs) = compile_json(&value)?;
        Ok(SchemaDocument { root, defs })
    }

    /// Validates `root` of `document` with the default settings.
    pub fn validate<N: NumberSemantics>(&self, document: &Document, root: NodeId, numbers: &N) -> (r: ValidationReport)
        requires
            document.wf(),
        ensures
            issues_sorted(r@),
            issues_carry_spans(*document, r@),
            direct_issue_kinds(*document, root, self.root, crate::schema::default_settings(), 0) matches Some(k) ==> (r@.len()
                == k.len() && forall|i: int| 0 <= i < r@.len() ==> (#[trigger] r@[i]).node == root && r@[i].path@.len() == 0
                && k.contains(r@[i].kind)),
            exists|v: Seq<ValidationIssue>| r@ == report_order(v) && root_outcome(
                *document,
                root,
                self.root,
                self.defs@,
                crate::schema::default_settings(),
                v,
            ),
    {
        let settings = ValidationSettings::default();
        assert(settings == crate::schema::default_settings());
        self.validate_with(document, root, &settings, numbers)
    }

    /// Validates `root` of `document`, `settings` gating which checks run: a group that is off
    /// reports nothing of its own kinds. The issues come sorted by path and kind, and each
    /// carries the span of the node it was raised at.
    pub fn validate_with<N: NumberSemantics>(&self, document: &Document, root: NodeId, settings: &ValidationSettings, numbers: &N) -> (r: ValidationReport)
        requires
            document.wf(),
            settings.max_depth < usize::MAX,
        ensures
            issues_sorted(r@),
            issues_carry_spans(*document, r@),
            issues_gated(*settings, r@),
            direct_issue_kinds(*document, root, self.root, *settings, 0) matches Some(k) ==> (r@.len() == k.len()
                && forall|i: int| 0 <= i < r@.len() ==> (#[trigger] r@[i]).node == root && r@[i].path@.len() == 0
                    && k.contains(r@[i].kind)),
            exists|v: Seq<ValidationIssue>| r@ == report_order(v) && root_outcome(*document, root, self.root, self.defs@, *settings, v),
    {
        let mut issues: Vec<ValidationIssue> = Vec::new();
        let mut path = String::new();
        proof {
            assert(path@ =~= Seq::<char>::empty());
            assert(issues@ =~= Seq::<ValidationIssue>::empty());
        }
        validate_node(document, root, &self.root, &self.defs, settings, 0, &mut path, &mut issues, numbers);
        let ghost v = issues@;
        let report = ValidationReport::from_issues(issues);
        proof {
            assert(root_outcome(*document, root, self.root, self.defs@, *settings, v));
            assert(report@ == report_order(v));
        }
        proof {
            broadcast use {vstd::multiset::group_multiset_axioms, vstd::seq_lib::group_to_multiset_ensures};
            lemma_report_order_sorted_permutation(issues@);
            let out = report_order(issues@);
            assert forall|i: int| 0 <= i < out.len() implies (#[trigger] out[i]).span == span_of(*document, out[i].node)
                && kind_enabled(*settings, out[i].kind) by {
                assert(out.to_multiset().count(out[i]) > 0);
                assert(issues@.to_multiset().count(out[i]) > 0);
                assert(issues@.contains(out[i]));
            }
            if let Some(k) = direct_issue_kinds(*document, root, self.root, *settings, 0) {
                assert(issues@.len() == k.len());
                assert forall|i: int| 0 <= i < out.len() implies (#[trigger] out[i]).node == root && out[i].path@.len() == 0
                    && k.contains(out[i].kind) by {
                    assert(out.to_multiset().count(out[i]) > 0);
                    assert(issues@.to_multiset().count(out[i]) > 0);
                    assert(issues@.contains(out[i]));
                    let j = choose|j: int| 0 <= j < issues@.len() && issues@[j] == out[i];
                    assert(issues@[0 + j].kind == k[j]);
                }
            }
        }
        report
    }
}

/// A `type` schema checks a scalar by the JSON kind of its value: null is `null`, a boolean is
/// `boolean`, an integer or float is `number`, and a string or a timestamp-looking string is
/// `string`. Within the depth limit and with type checks on, the scalar passes `type: t`
/// exactly when `t` is that kind, and otherwise gets one `TypeMismatch`.
pub proof fn scalars_have_their_json_type(
    document: Document,
    node: NodeId,
    t: JsonType,
    settings: ValidationSettings,
    depth: usize,
)
    requires
        (node.0 as int) < document.nodes@.len(),
        document.nodes@[node.0 as int].kind is Scalar,
        depth <= settings.max_depth,
        settings.types,
    ensures
        ({
            let v = document.nodes@[node.0 as int].kind->Scalar_0.value;
            let kind = if v is Null {
                JsonType::Null
            } else if v is Bool {
                JsonType::Boolean
            } else if v is Int || v is Float {
                JsonType::Number
            } else {
                JsonType::String
            };
            &&& t == kind ==> base_issue_kinds(document, node, Schema::Type(t), settings, depth) == Some(
                Seq::<IssueKind>::empty(),
            )
            &&& t != kind ==> base_issue_kinds(document, node, Schema::Type(t), settings, depth) == Some(
                seq![IssueKind::TypeMismatch],
            )
        }),
{
}

/// A mapping has the JSON type `object` and a sequence the type `array`: within the depth
/// limit and with type checks on, such a node passes `type: t` exactly when `t` is that type.
pub proof fn collections_have_their_json_type(
    document: Document,
    node: NodeId,
    t: JsonType,
    settings: ValidationSettings,
    depth: usize,
)
    requires
        (node.0 as int) < document.nodes@.len(),
        depth <= settings.max_depth,
        settings.types,
    ensures
        document.nodes@[node.0 as int].kind is Mapping ==> (base_issue_kinds(document, node, Schema::Type(t), settings, depth)
            == Some(Seq::<IssueKind>::empty()) <==> t == JsonType::Object),
        document.nodes@[node.0 as int].kind is Sequence ==> (base_issue_kinds(document, node, Schema::Type(t), settings, depth)
            == Some(Seq::<IssueKind>::empty()) <==> t == JsonType::Array),
{
    assert(seq![IssueKind::TypeMismatch] != Seq::<IssueKind>::empty()) by {
        assert(seq![IssueKind::TypeMismatch].len() == 1);
    }
}

} // verus!
