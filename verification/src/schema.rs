//! The result side of schema validation: issue kinds, issues, the ordered report, the
//! settings that gate which checks run, and schema loading errors.
use vstd::prelude::*;
use crate::diagnostics::{yaml_error_text, YamlError};
use crate::node::NodeId;
use crate::span::Span;
use crate::text::{chars_of, push_text, same_text, string_from_chars};

verus! {

/// The error type of schema loading and compilation.
#[derive(Clone, Debug, PartialEq, Eq)]
pub enum Error {
    /// The schema source failed to parse as YAML.
    Parse(String),
    /// The schema parsed but isn't a valid schema document.
    InvalidSchema(String),
    /// The `pattern` value used regex syntax outside the supported subset.
    InvalidPattern(String),
}

/// The message a schema error displays.
pub open spec fn schema_error_text(e: Error) -> Seq<char> {
    match e {
        Error::Parse(msg) => "schema parse error: "@ + msg@,
        Error::InvalidSchema(msg) => "invalid schema: "@ + msg@,
        Error::InvalidPattern(msg) => "invalid pattern: "@ + msg@,
    }
}

impl Error {
    /// The error's message.
    pub fn message(&self) -> (r: String)
        ensures
            r@ == schema_error_text(*self),
    {
        let mut v: Vec<char> = Vec::new();
        match self {
            Error::Parse(msg) => {
                push_text(&mut v, "schema parse error: ");
                push_text(&mut v, msg.as_str());
            },
            Error::InvalidSchema(msg) => {
                push_text(&mut v, "invalid schema: ");
                push_text(&mut v, msg.as_str());
            },
            Error::InvalidPattern(msg) => {
                push_text(&mut v, "invalid pattern: ");
                push_text(&mut v, msg.as_str());
            },
        }
        string_from_chars(v.as_slice())
    }

    /// A schema source that failed to parse, carrying the rendered parse error.
    pub fn from_yaml_error(e: &YamlError) -> (r: Error)
        ensures
            r matches Error::Parse(msg) && msg@ == yaml_error_text(*e),
    {
        Error::Parse(e.render())
    }
}

/// The JSON types a schema can constrain.
#[derive(Clone, Copy, Debug, PartialEq, Eq, Structural)]
pub enum JsonType {
    Null,
    Boolean,
    Number,
    String,
    Array,
    Object,
}

/// The type a `type` keyword value names; `integer` is a `Number`.
pub open spec fn json_type_named(name: Seq<char>) -> Option<JsonType> {
    if name == "null"@ {
        Some(JsonType::Null)
    } else if name == "boolean"@ {
        Some(JsonType::Boolean)
    } else if name == "number"@ || name == "integer"@ {
        Some(JsonType::Number)
    } else if name == "string"@ {
        Some(JsonType::String)
    } else if name == "array"@ {
        Some(JsonType::Array)
    } else if name == "object"@ {
        Some(JsonType::Object)
    } else {
        None
    }
}

pub open spec fn json_type_name(t: JsonType) -> Seq<char> {
    match t {
        JsonType::Null => "null"@,
        JsonType::Boolean => "boolean"@,
        JsonType::Number => "number"@,
        JsonType::String => "string"@,
        JsonType::Array => "array"@,
        JsonType::Object => "object"@,
    }
}

impl JsonType {
    pub fn from_name(name: &str) -> (r: Option<JsonType>)
        ensures
            r == json_type_named(name@),
    {
        if same_text(name, "null") {
            Some(JsonType::Null)
        } else if same_text(name, "boolean") {
            Some(JsonType::Boolean)
        } else if same_text(name, "number") || same_text(name, "integer") {
            Some(JsonType::Number)
        } else if same_text(name, "string") {
            Some(JsonType::String)
        } else if same_text(name, "array") {
            Some(JsonType::Array)
        } else if same_text(name, "object") {
            Some(JsonType::Object)
        } else {
            None
        }
    }

    pub fn name(self) -> (r: &'static str)
        ensures
            r@ == json_type_name(self),
    {
        match self {
            JsonType::Null => "null",
            JsonType::Boolean => "boolean",
            JsonType::Number => "number",
            JsonType::String => "string",
            JsonType::Array => "array",
            JsonType::Object => "object",
        }
    }
}

/// Every type's name reads back as that type.
pub proof fn lemma_json_type_round_trip(t: JsonType)
    ensures
        json_type_named(json_type_name(t)) == Some(t),
{
    reveal_strlit("null");
    reveal_strlit("boolean");
    reveal_strlit("number");
    reveal_strlit("integer");
    reveal_strlit("string");
    reveal_strlit("array");
    reveal_strlit("object");
    assert("null"@.len() == 4);
    assert("boolean"@.len() == 7);
    assert("number"@.len() == 6);
    assert("integer"@.len() == 7);
    assert("string"@.len() == 6);
    assert("array"@.len() == 5);
    assert("object"@.len() == 6);
    assert("string"@[0] != "number"@[0]);
    assert("object"@[0] != "number"@[0]);
    assert("object"@[0] != "string"@[0]);
}

/// The category of a validation issue.
#[derive(Clone, Copy, Debug, PartialEq, Eq, Structural)]
pub enum IssueKind {
    TypeMismatch,
    EnumMismatch,
    ConstMismatch,
    PatternMismatch,
    MinLength,
    MaxLength,
    Minimum,
    Maximum,
    ExclusiveMinimum,
    ExclusiveMaximum,
    MultipleOf,
    MinItems,
    MaxItems,
    UniqueItems,
    RequiredMissing,
    AdditionalProperty,
    MinProperties,
    MaxProperties,
    OneOfMismatch,
    OneOfAmbiguous,
    AnyOfMismatch,
    AllOfMismatch,
    NotMatched,
    RefUnresolved,
    RefCycle,
    DepthExceeded,
}

/// The position of a kind in declaration order, which issues are ordered by.
pub open spec fn kind_index(k: IssueKind) -> nat {
    match k {
        IssueKind::TypeMismatch => 0,
        IssueKind::EnumMismatch => 1,
        IssueKind::ConstMismatch => 2,
        IssueKind::PatternMismatch => 3,
        IssueKind::MinLength => 4,
        IssueKind::MaxLength => 5,
        IssueKind::Minimum => 6,
        IssueKind::Maximum => 7,
        IssueKind::ExclusiveMinimum => 8,
        IssueKind::ExclusiveMaximum => 9,
        IssueKind::MultipleOf => 10,
        IssueKind::MinItems => 11,
        IssueKind::MaxItems => 12,
        IssueKind::UniqueItems => 13,
        IssueKind::RequiredMissing => 14,
        IssueKind::AdditionalProperty => 15,
        IssueKind::MinProperties => 16,
        IssueKind::MaxProperties => 17,
        IssueKind::OneOfMismatch => 18,
        IssueKind::OneOfAmbiguous => 19,
        IssueKind::AnyOfMismatch => 20,
        IssueKind::AllOfMismatch => 21,
        IssueKind::NotMatched => 22,
        IssueKind::RefUnresolved => 23,
        IssueKind::RefCycle => 24,
        IssueKind::DepthExceeded => 25,
    }
}

pub open spec fn issue_kind_text(k: IssueKind) -> Seq<char> {
    match k {
        IssueKind::TypeMismatch => "type mismatch"@,
        IssueKind::EnumMismatch => "enum mismatch"@,
        IssueKind::ConstMismatch => "const mismatch"@,
        IssueKind::PatternMismatch => "pattern mismatch"@,
        IssueKind::MinLength => "below minLength"@,
        IssueKind::MaxLength => "above maxLength"@,
        IssueKind::Minimum => "below minimum"@,
        IssueKind::Maximum => "above maximum"@,
        IssueKind::ExclusiveMinimum => "at or below exclusiveMinimum"@,
        IssueKind::ExclusiveMaximum => "at or above exclusiveMaximum"@,
        IssueKind::MultipleOf => "not a multiple of multipleOf"@,
        IssueKind::MinItems => "below minItems"@,
        IssueKind::MaxItems => "above maxItems"@,
        IssueKind::UniqueItems => "duplicate items with uniqueItems"@,
        IssueKind::RequiredMissing => "required property missing"@,
        IssueKind::AdditionalProperty => "additional property not allowed"@,
        IssueKind::MinProperties => "below minProperties"@,
        IssueKind::MaxProperties => "above maxProperties"@,
        IssueKind::OneOfMismatch => "matched none of oneOf"@,
        IssueKind::OneOfAmbiguous => "matched more than one of oneOf"@,
        IssueKind::AnyOfMismatch => "matched none of anyOf"@,
        IssueKind::AllOfMismatch => "failed one of allOf"@,
        IssueKind::NotMatched => "matched `not`"@,
        IssueKind::RefUnresolved => "$ref target not found"@,
        IssueKind::RefCycle => "$ref recursion exceeded depth"@,
        IssueKind::DepthExceeded => "validation depth exceeded"@,
    }
}

impl IssueKind {
    /// The position of this kind in declaration order.
    pub fn index(self) -> (r: u32)
        ensures
            r == kind_index(self),
    {
        match self {
            IssueKind::TypeMismatch => 0,
            IssueKind::EnumMismatch => 1,
            IssueKind::ConstMismatch => 2,
            IssueKind::PatternMismatch => 3,
            IssueKind::MinLength => 4,
            IssueKind::MaxLength => 5,
            IssueKind::Minimum => 6,
            IssueKind::Maximum => 7,
            IssueKind::ExclusiveMinimum => 8,
            IssueKind::ExclusiveMaximum => 9,
            IssueKind::MultipleOf => 10,
            IssueKind::MinItems => 11,
            IssueKind::MaxItems => 12,
            IssueKind::UniqueItems => 13,
            IssueKind::RequiredMissing => 14,
            IssueKind::AdditionalProperty => 15,
            IssueKind::MinProperties => 16,
            IssueKind::MaxProperties => 17,
            IssueKind::OneOfMismatch => 18,
            IssueKind::OneOfAmbiguous => 19,
            IssueKind::AnyOfMismatch => 20,
            IssueKind::AllOfMismatch => 21,
            IssueKind::NotMatched => 22,
            IssueKind::RefUnresolved => 23,
            IssueKind::RefCycle => 24,
            IssueKind::DepthExceeded => 25,
        }
    }

    /// The human-readable description of this kind.
    pub fn description(self) -> (r: &'static str)
        ensures
            r@ == issue_kind_text(self),
    {
        match self {
            IssueKind::TypeMismatch => "type mismatch",
            IssueKind::EnumMismatch => "enum mismatch",
            IssueKind::ConstMismatch => "const mismatch",
            IssueKind::PatternMismatch => "pattern mismatch",
            IssueKind::MinLength => "below minLength",
            IssueKind::MaxLength => "above maxLength",
            IssueKind::Minimum => "below minimum",
            IssueKind::Maximum => "above maximum",
            IssueKind::ExclusiveMinimum => "at or below exclusiveMinimum",
            IssueKind::ExclusiveMaximum => "at or above exclusiveMaximum",
            IssueKind::MultipleOf => "not a multiple of multipleOf",
            IssueKind::MinItems => "below minItems",
            IssueKind::MaxItems => "above maxItems",
            IssueKind::UniqueItems => "duplicate items with uniqueItems",
            IssueKind::RequiredMissing => "required property missing",
            IssueKind::AdditionalProperty => "additional property not allowed",
            IssueKind::MinProperties => "below minProperties",
            IssueKind::MaxProperties => "above maxProperties",
            IssueKind::OneOfMismatch => "matched none of oneOf",
            IssueKind::OneOfAmbiguous => "matched more than one of oneOf",
            IssueKind::AnyOfMismatch => "matched none of anyOf",
            IssueKind::AllOfMismatch => "failed one of allOf",
            IssueKind::NotMatched => "matched `not`",
            IssueKind::RefUnresolved => "$ref target not found",
            IssueKind::RefCycle => "$ref recursion exceeded depth",
            IssueKind::DepthExceeded => "validation depth exceeded",
        }
    }
}

/// One validation failure: where it happened and why.
#[derive(Clone, Debug, PartialEq, Eq)]
pub struct ValidationIssue {
    /// Dotted path from the validated root, e.g. `config.tags.0` (empty at the root).
    pub path: String,
    pub kind: IssueKind,
    pub message: String,
    /// The node the issue was raised at.
    pub node: NodeId,
    /// The node's source span, captured when the issue was raised.
    pub span: Option<Span>,
}

/// `a` comes strictly before `b` in code point order (for UTF-8 text this is also byte order).
pub open spec fn text_less(a: Seq<char>, b: Seq<char>) -> bool
    decreases a.len(),
{
    if a.len() == 0 {
        b.len() > 0
    } else if b.len() == 0 {
        false
    } else if a[0] != b[0] {
        a[0] < b[0]
    } else {
        text_less(a.drop_first(), b.drop_first())
    }
}

/// `a` may stand before `b` in a report: ordered by path, then by kind.
pub open spec fn issue_le(a: ValidationIssue, b: ValidationIssue) -> bool {
    text_less(a.path@, b.path@) || (a.path@ == b.path@ && kind_index(a.kind) <= kind_index(
        b.kind,
    ))
}

pub open spec fn issues_sorted(s: Seq<ValidationIssue>) -> bool {
    forall|i: int, j: int| 0 <= i < j < s.len() ==> issue_le(#[trigger] s[i], #[trigger] s[j])
}

/// `x` inserted into `s` after every issue that may stand before it, scanning from the end.
pub open spec fn insert_issue(s: Seq<ValidationIssue>, x: ValidationIssue) -> Seq<ValidationIssue>
    decreases s.len(),
{
    if s.len() == 0 {
        seq![x]
    } else if issue_le(s.last(), x) {
        s.push(x)
    } else {
        insert_issue(s.drop_last(), x).push(s.last())
    }
}

/// The issues in report order: sorted by path and kind, keeping the original order among
/// issues with the same path and kind.
pub open spec fn report_order(s: Seq<ValidationIssue>) -> Seq<ValidationIssue>
    decreases s.len(),
{
    if s.len() == 0 {
        Seq::empty()
    } else {
        insert_issue(report_order(s.drop_last()), s.last())
    }
}

proof fn lemma_text_less_total(a: Seq<char>, b: Seq<char>)
    ensures
        text_less(a, b) || text_less(b, a) || a == b,
    decreases a.len(),
{
    if a.len() > 0 && b.len() > 0 && a[0] == b[0] {
        lemma_text_less_total(a.drop_first(), b.drop_first());
        if a.drop_first() == b.drop_first() {
            assert(a =~= seq![a[0]] + a.drop_first());
            assert(b =~= seq![b[0]] + b.drop_first());
        }
    } else if a.len() == 0 && b.len() == 0 {
        assert(a =~= b);
    }
}

proof fn lemma_text_less_transitive(a: Seq<char>, b: Seq<char>, c: Seq<char>)
    requires
        text_less(a, b),
        text_less(b, c),
    ensures
        text_less(a, c),
    decreases a.len(),
{
    if a.len() > 0 && b.len() > 0 && c.len() > 0 && a[0] == b[0] && b[0] == c[0] {
        lemma_text_less_transitive(a.drop_first(), b.drop_first(), c.drop_first());
    }
}

proof fn lemma_issue_le_transitive(a: ValidationIssue, b: ValidationIssue, c: ValidationIssue)
    requires
        issue_le(a, b),
        issue_le(b, c),
    ensures
        issue_le(a, c),
{
    if text_less(a.path@, b.path@) && text_less(b.path@, c.path@) {
        lemma_text_less_transitive(a.path@, b.path@, c.path@);
    }
}

proof fn lemma_issue_le_total(a: ValidationIssue, b: ValidationIssue)
    ensures
        issue_le(a, b) || issue_le(b, a),
{
    lemma_text_less_total(a.path@, b.path@);
}

proof fn lemma_insert_issue(s: Seq<ValidationIssue>, x: ValidationIssue)
    requires
        issues_sorted(s),
    ensures
        issues_sorted(insert_issue(s, x)),
        insert_issue(s, x).to_multiset() == s.to_multiset().insert(x),
        insert_issue(s, x).len() == s.len() + 1,
        forall|y: ValidationIssue|
            (issue_le(y, x) && forall|k: int| 0 <= k < s.len() ==> issue_le(y, #[trigger] s[k]))
                ==> issue_le(y, #[trigger] insert_issue(s, x)[0]),
    decreases s.len(),
{
    broadcast use {vstd::multiset::group_multiset_axioms, vstd::seq_lib::group_to_multiset_ensures};

    if s.len() == 0 {
        assert(s =~= Seq::<ValidationIssue>::empty());
        assert(seq![x] =~= s.push(x));
    } else if issue_le(s.last(), x) {
        assert forall|i: int, j: int| 0 <= i < j < s.len() + 1 implies issue_le(
            #[trigger] s.push(x)[i],
            #[trigger] s.push(x)[j],
        ) by {
            if j == s.len() {
                if i < s.len() - 1 {
                    lemma_issue_le_transitive(s[i], s.last(), x);
                }
            }
        }
        assert(s.push(x).to_multiset() == s.to_multiset().insert(x));
    } else {
        let t = s.drop_last();
        let l = s.last();
        assert(issues_sorted(t));
        lemma_insert_issue(t, x);
        let r = insert_issue(t, x);
        lemma_issue_le_total(l, x);
        // every element of r may stand before l
        assert forall|i: int| 0 <= i < r.len() implies issue_le(#[trigger] r[i], l) by {
            assert(r.contains(r[i]));
            assert(r.to_multiset().count(r[i]) > 0);
            assert(t.to_multiset().insert(x).count(r[i]) > 0);
            if r[i] != x {
                assert(t.to_multiset().count(r[i]) > 0);
                        assert(t.contains(r[i]));
                let k = choose|k: int| 0 <= k < t.len() && t[k] == r[i];
                assert(s[k] == t[k]);
                assert(issue_le(s[k], s[s.len() - 1]));
            }
        }
        assert forall|i: int, j: int| 0 <= i < j < r.len() + 1 implies issue_le(
            #[trigger] r.push(l)[i],
            #[trigger] r.push(l)[j],
        ) by {
            if j == r.len() {
                assert(r.push(l)[i] == r[i]);
            } else {
                assert(r.push(l)[i] == r[i]);
                assert(r.push(l)[j] == r[j]);
            }
        }
        assert(s =~= t.push(l));
        assert(r.push(l).to_multiset() == r.to_multiset().insert(l));
        assert(s.to_multiset() == t.to_multiset().insert(l));
        assert(r.push(l).to_multiset() =~= s.to_multiset().insert(x));
        assert forall|y: ValidationIssue|
            (issue_le(y, x) && forall|k: int| 0 <= k < s.len() ==> issue_le(y, #[trigger] s[k]))
                implies issue_le(y, #[trigger] insert_issue(s, x)[0]) by {
            assert forall|k: int| 0 <= k < t.len() implies issue_le(y, #[trigger] t[k]) by {
                assert(s[k] == t[k]);
            }
            assert(insert_issue(s, x)[0] == r[0]);
        }
    }
}

/// Report order is sorted by path and kind, and holds exactly the given issues.
pub proof fn lemma_report_order_sorted_permutation(s: Seq<ValidationIssue>)
    ensures
        issues_sorted(report_order(s)),
        report_order(s).to_multiset() == s.to_multiset(),
        report_order(s).len() == s.len(),
    decreases s.len(),
{
    broadcast use {vstd::multiset::group_multiset_axioms, vstd::seq_lib::group_to_multiset_ensures};

    if s.len() > 0 {
        lemma_report_order_sorted_permutation(s.drop_last());
        lemma_insert_issue(report_order(s.drop_last()), s.last());
        assert(s =~= s.drop_last().push(s.last()));
        assert(s.to_multiset() == s.drop_last().to_multiset().insert(s.last()));
    } else {
        assert(s.to_multiset() =~= vstd::multiset::Multiset::empty());
        assert(report_order(s).to_multiset() =~= vstd::multiset::Multiset::empty());
    }
}

/// Inserting at the position found by scanning back past every issue that may not stand
/// before `x` is `insert_issue`.
proof fn lemma_insert_issue_at(s: Seq<ValidationIssue>, x: ValidationIssue, p: int)
    requires
        0 <= p <= s.len(),
        p == 0 || issue_le(s[p - 1], x),
        forall|k: int| p <= k < s.len() ==> !issue_le(#[trigger] s[k], x),
    ensures
        insert_issue(s, x) == s.insert(p, x),
    decreases s.len(),
{
    if s.len() == p {
        assert(s.insert(p, x) =~= s.push(x));
        if p == 0 {
            assert(s.push(x) =~= seq![x]);
        }
    } else {
        let t = s.drop_last();
        assert forall|k: int| p <= k < t.len() implies !issue_le(#[trigger] t[k], x) by {
            assert(t[k] == s[k]);
        }
        lemma_insert_issue_at(t, x, p);
        assert(s.insert(p, x) =~= t.insert(p, x).push(s.last()));
    }
}

/// Whether `a` comes strictly before `b` in code point order.
pub fn text_less_exec(a: &str, b: &str) -> (r: bool)
    ensures
        r == text_less(a@, b@),
{
    let x = chars_of(a);
    let y = chars_of(b);
    let mut i: usize = 0;
    assert(x@.skip(0) =~= x@);
    assert(y@.skip(0) =~= y@);
    while i < x.len() && i < y.len() && x[i] == y[i]
        invariant
            i <= x@.len(),
            i <= y@.len(),
            text_less(x@, y@) == text_less(x@.skip(i as int), y@.skip(i as int)),
        decreases x@.len() - i,
    {
        assert(x@.skip(i as int).drop_first() =~= x@.skip(i + 1));
        assert(y@.skip(i as int).drop_first() =~= y@.skip(i + 1));
        i = i + 1;
    }
    if i == x.len() {
        i < y.len()
    } else if i == y.len() {
        false
    } else {
        x[i] < y[i]
    }
}

/// Whether `a` may stand before `b` in a report.
pub fn issue_le_exec(a: &ValidationIssue, b: &ValidationIssue) -> (r: bool)
    ensures
        r == issue_le(*a, *b),
{
    text_less_exec(a.path.as_str(), b.path.as_str()) || (same_text(a.path.as_str(), b.path.as_str())
        && a.kind.index() <= b.kind.index())
}

/// The result of validating a document: issues in a deterministic order, sorted by path and
/// then by kind.
#[derive(Clone, Debug, PartialEq, Eq)]
pub struct ValidationReport {
    issues: Vec<ValidationIssue>,
}

impl View for ValidationReport {
    type V = Seq<ValidationIssue>;

    closed spec fn view(&self) -> Seq<ValidationIssue> {
        self.issues@
    }
}

impl Default for ValidationReport {
    fn default() -> (r: ValidationReport)
        ensures
            r@ == Seq::<ValidationIssue>::empty(),
    {
        ValidationReport { issues: Vec::new() }
    }
}

impl ValidationReport {
    /// A report holding `issues` in report order (a stable sort by path, then kind), so that
    /// two runs over the same document compare equal.
    pub fn from_issues(issues: Vec<ValidationIssue>) -> (r: ValidationReport)
        ensures
            r@ == report_order(issues@),
    {
        let ghost all = issues@;
        let mut rest = issues;
        let mut out: Vec<ValidationIssue> = Vec::new();
        let mut i: usize = 0;
        let n = rest.len();
        assert(all.take(0) =~= Seq::<ValidationIssue>::empty());
        assert(all.skip(0) =~= all);
        while i < n
            invariant
                n == all.len(),
                i <= n,
                rest@ == all.skip(i as int),
                out@ == report_order(all.take(i as int)),
            decreases n - i,
        {
            let x = rest.remove(0);
            assert(x == all[i as int]);
            assert(rest@ =~= all.skip(i + 1));
            let mut p = out.len();
            while p > 0 && !issue_le_exec(&out[p - 1], &x)
                invariant
                    p <= out@.len(),
                    forall|k: int| p <= k < out@.len() ==> !issue_le(#[trigger] out@[k], x),
                decreases p,
            {
                p = p - 1;
            }
            proof {
                lemma_insert_issue_at(out@, x, p as int);
                assert(all.take(i + 1).drop_last() =~= all.take(i as int));
                assert(all.take(i + 1).last() == x);
            }
            out.insert(p, x);
            i = i + 1;
        }
        assert(all.take(n as int) =~= all);
        ValidationReport { issues: out }
    }

    pub fn is_valid(&self) -> (r: bool)
        ensures
            r == (self@.len() == 0),
    {
        self.issues.len() == 0
    }

    pub fn issues(&self) -> (r: &[ValidationIssue])
        ensures
            r@ == self@,
    {
        self.issues.as_slice()
    }

    pub fn issue_count(&self) -> (r: usize)
        ensures
            r == self@.len(),
    {
        self.issues.len()
    }
}

/// Gates which schema checks run.
#[derive(Clone, Debug, PartialEq, Eq)]
pub struct ValidationSettings {
    pub types: bool,
    pub enums: bool,
    pub strings: bool,
    pub numbers: bool,
    pub arrays: bool,
    pub objects: bool,
    pub combinators: bool,
    pub refs: bool,
    /// Cap on `$ref`/combinator recursion.
    pub max_depth: usize,
}

/// The default settings: every check on, recursion capped at 64.
pub open spec fn default_settings() -> ValidationSettings {
    ValidationSettings {
        types: true,
        enums: true,
        strings: true,
        numbers: true,
        arrays: true,
        objects: true,
        combinators: true,
        refs: true,
        max_depth: 64,
    }
}

impl Default for ValidationSettings {
    fn default() -> (r: ValidationSettings)
        ensures
            r.types && r.enums && r.strings && r.numbers && r.arrays && r.objects
                && r.combinators && r.refs,
            r.max_depth == 64,
    {
        ValidationSettings {
            types: true,
            enums: true,
            strings: true,
            numbers: true,
            arrays: true,
            objects: true,
            combinators: true,
            refs: true,
            max_depth: 64,
        }
    }
}

/// Whether a check group's name is among `groups`.
pub open spec fn group_listed(groups: Seq<&str>, name: Seq<char>) -> bool {
    exists|i: int| 0 <= i < groups.len() && (#[trigger] groups[i])@ == name
}

fn group_listed_exec(groups: &[&str], name: &str) -> (r: bool)
    ensures
        r == group_listed(groups@, name@),
{
    let mut i: usize = 0;
    while i < groups.len()
        invariant
            i <= groups@.len(),
            forall|k: int| 0 <= k < i ==> (#[trigger] groups@[k])@ != name@,
        decreases groups@.len() - i,
    {
        if same_text(groups[i], name) {
            return true;
        }
        i = i + 1;
    }
    false
}

impl ValidationSettings {
    /// Every check enabled, with a depth cap of 64.
    pub fn new() -> (r: ValidationSettings)
        ensures
            r.types && r.enums && r.strings && r.numbers && r.arrays && r.objects
                && r.combinators && r.refs,
            r.max_depth == 64,
    {
        ValidationSettings::default()
    }

    /// Enables exactly the listed check groups (`types`, `enums`, `strings`, `numbers`,
    /// `arrays`, `objects`, `combinators`, `refs`), keeping the depth cap.
    pub fn only(self, groups: &[&str]) -> (r: ValidationSettings)
        ensures
            r.types == group_listed(groups@, "types"@),
            r.enums == group_listed(groups@, "enums"@),
            r.strings == group_listed(groups@, "strings"@),
            r.numbers == group_listed(groups@, "numbers"@),
            r.arrays == group_listed(groups@, "arrays"@),
            r.objects == group_listed(groups@, "objects"@),
            r.combinators == group_listed(groups@, "combinators"@),
            r.refs == group_listed(groups@, "refs"@),
            r.max_depth == self.max_depth,
    {
        let mut s = self;
        s.types = group_listed_exec(groups, "types");
        s.enums = group_listed_exec(groups, "enums");
        s.strings = group_listed_exec(groups, "strings");
        s.numbers = group_listed_exec(groups, "numbers");
        s.arrays = group_listed_exec(groups, "arrays");
        s.objects = group_listed_exec(groups, "objects");
        s.combinators = group_listed_exec(groups, "combinators");
        s.refs = group_listed_exec(groups, "refs");
        s
    }

    /// The same settings with the recursion cap set to `depth`.
    pub fn with_max_depth(self, depth: usize) -> (r: ValidationSettings)
        ensures
            r == (ValidationSettings { max_depth: depth, ..self }),
    {
        let mut s = self;
        s.max_depth = depth;
        s
    }
}

/// The key under which a `properties` entry is stored.
pub fn entry_name(name: &str) -> (r: String)
    ensures
        r@ == name@,
{
    name.to_string()
}

/// `t` occurs in `s` at position `i`.
pub open spec fn occurs_at(s: Seq<char>, t: Seq<char>, i: int) -> bool {
    0 <= i && i + t.len() <= s.len() && s.subrange(i, i + t.len()) == t
}

/// The last position at or before `i` where `t` occurs in `s`, or -1.
pub open spec fn last_occurrence_from(s: Seq<char>, t: Seq<char>, i: int) -> int
    decreases i + 1,
{
    if i < 0 {
        -1
    } else if occurs_at(s, t, i) {
        i
    } else {
        last_occurrence_from(s, t, i - 1)
    }
}

/// A dotted path with its last occurrence of `segment` cut off, together with the `.` before
/// it; the empty path when `segment` does not occur.
pub open spec fn popped_path(s: Seq<char>, segment: Seq<char>) -> Seq<char> {
    let p = last_occurrence_from(s, segment, s.len() - segment.len());
    if p < 0 {
        Seq::empty()
    } else if p > 0 && s[p - 1] == '.' {
        s.take(p - 1)
    } else {
        s.take(p)
    }
}

/// `path` extended by `segment`, with a `.` between when `path` is not empty.
pub open spec fn pushed_path(path: Seq<char>, segment: Seq<char>) -> Seq<char> {
    if path.len() > 0 { path.push('.') + segment } else { segment }
}

/// Popping a segment just pushed gives the path back.
pub proof fn lemma_pop_push(path: Seq<char>, segment: Seq<char>)
    ensures
        popped_path(pushed_path(path, segment), segment) == path,
{
    let s = pushed_path(path, segment);
    let i = s.len() - segment.len();
    assert(s.subrange(i, i + segment.len()) =~= segment);
    assert(occurs_at(s, segment, i));
    if path.len() > 0 {
        assert(s[i - 1] == '.');
        assert(s.take(i - 1) =~= path);
    } else {
        assert(s.take(i) =~= path);
    }
}

/// The last position where `t` occurs in `s`.
fn find_last_occurrence(s: &Vec<char>, t: &Vec<char>) -> (r: Option<usize>)
    ensures
        match r {
            Some(p) => p == last_occurrence_from(s@, t@, s@.len() - t@.len()) && p + t@.len()
                <= s@.len(),
            None => last_occurrence_from(s@, t@, s@.len() - t@.len()) < 0,
        },
{
    if t.len() > s.len() {
        return None;
    }
    let sl = s.len();
    let mut i = s.len() - t.len();
    loop
        invariant
            sl == s@.len(),
            t@.len() <= s@.len(),
            i <= s@.len() - t@.len(),
            last_occurrence_from(s@, t@, s@.len() - t@.len()) == last_occurrence_from(
                s@,
                t@,
                i as int,
            ),
        decreases i,
    {
        let mut k: usize = 0;
        while k < t.len() && s[i + k] == t[k]
            invariant
                sl == s@.len(),
                k <= t@.len(),
                i + t@.len() <= s@.len(),
                forall|m: int| 0 <= m < k ==> s@[i + m] == t@[m],
            decreases t@.len() - k,
        {
            k = k + 1;
        }
        if k == t.len() {
            assert(s@.subrange(i as int, i + t@.len()) =~= t@);
            return Some(i);
        }
        assert(s@.subrange(i as int, i + t@.len())[k as int] != t@[k as int]);
        if i == 0 {
            assert(last_occurrence_from(s@, t@, -1) == -1);
            return None;
        }
        i = i - 1;
    }
}

/// Removes the last `segment` (and the `.` before it) from a dotted path.
pub fn pop_path(path: &mut String, segment: &str)
    ensures
        final(path)@ == popped_path(old(path)@, segment@),
{
    let s = chars_of(path.as_str());
    let t = chars_of(segment);
    let cut: usize = match find_last_occurrence(&s, &t) {
        None => 0,
        Some(p) => {
            if p > 0 && s[p - 1] == '.' {
                p - 1
            } else {
                p
            }
        },
    };
    let kept = crate::charseq::copy_range(&s, 0, cut);
    assert(kept@ =~= popped_path(s@, t@));
    *path = string_from_chars(kept.as_slice());
}

} // verus!
