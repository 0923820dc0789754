//! Compiling a schema written as JSON: the same keywords as the YAML form, read from a JSON
//! value whose objects list each member once, in the order the JSON reader keeps them.
use vstd::prelude::*;
use crate::pattern::compile as compile_pattern;
use crate::schema::{json_type_named, Error, JsonType};
use crate::schema_compile::{has_name, names_target, defs_distinct, find_def, insert_def, ref_target, ref_target_spec, schema_of_type, Additional, Number, Schema};
use crate::text::{push_text, same_text, string_from_chars};
use serde_json::Value;

verus! {

#[verifier::external_type_specification]
#[verifier::external_body]
pub struct ExSerdeJsonValue(serde_json::Value);

/// What the JSON reader makes of `text`: the value, or the message of its error.
pub uninterp spec fn json_read(text: Seq<char>) -> Result<JsonValue, Seq<char>>;

/// Reads JSON text with `serde_json::from_str` into a `serde_json::Value` and converts it to
/// a `JsonValue`, a number by its `Display` text unless it is an integer; an error becomes its
/// `Display` message. The contract claims only that the same text always gives the same
/// result (`json_read`); what serde_json accepts is not stated here.
#[verifier::external_body]
pub(crate) fn read_json(text: &str) -> (r: Result<JsonValue, String>)
    ensures
        match r {
            Ok(v) => json_read(text@) == Ok::<JsonValue, Seq<char>>(v),
            Err(m) => json_read(text@) == Err::<JsonValue, Seq<char>>(m@),
        },
{
    match serde_json::from_str::<serde_json::Value>(text) {
        Ok(v) => Ok(json_of_serde(&v)),
        Err(e) => Err(format!("{e}")),
    }
}

/// The conversion half of `read_json`: each `serde_json::Value` variant to the `JsonValue`
/// variant of the same name, members and items in order.
#[verifier::external_body]
fn json_of_serde(v: &Value) -> JsonValue {
    match v {
        Value::Null => JsonValue::Null,
        Value::Bool(b) => JsonValue::Bool(*b),
        Value::Number(n) => JsonValue::Number(match (n.as_u64(), n.as_i64()) {
            (Some(u), _) => JsonNumber::PosInt(u),
            (_, Some(i)) => JsonNumber::NegInt(i),
            _ => JsonNumber::Float(n.to_string()),
        }),
        Value::String(t) => JsonValue::String(t.clone()),
        Value::Array(a) => JsonValue::Array(a.iter().map(json_of_serde).collect()),
        Value::Object(o) => JsonValue::Object(o.iter().map(|p| (p.0.clone(), json_of_serde(p.1))).collect()),
    }
}

/// A JSON number as a JSON reader holds it: a non-negative integer, a negative integer, or a
/// double by the text it displays as.
#[derive(Clone, Debug, PartialEq, Eq)]
pub enum JsonNumber {
    PosInt(u64),
    NegInt(i64),
    Float(String),
}

/// A JSON value. An object lists its members in order, each key once.
#[derive(Debug)]
pub enum JsonValue {
    Null,
    Bool(bool),
    Number(JsonNumber),
    String(String),
    Array(Vec<JsonValue>),
    Object(Vec<(String, JsonValue)>),
}

/// The position of the member keyed `key`, the first when several are.
pub open spec fn member_index(obj: Seq<(String, JsonValue)>, key: Seq<char>) -> Option<int>
    decreases obj.len(),
{
    if obj.len() == 0 {
        None
    } else {
        match member_index(obj.drop_last(), key) {
            Some(i) => Some(i),
            None => if obj.last().0@ == key {
                Some(obj.len() - 1)
            } else {
                None
            },
        }
    }
}

/// The value of the member keyed `key`.
fn member<'a>(obj: &'a Vec<(String, JsonValue)>, key: &str) -> (r: Option<&'a JsonValue>)
    ensures
        match member_index(obj@, key@) {
            Some(i) => 0 <= i < obj@.len() && r == Some(&obj@[i].1),
            None => r is None,
        },
{
    let mut i: usize = 0;
    assert(obj@.take(0) =~= Seq::<(String, JsonValue)>::empty());
    while i < obj.len()
        invariant
            i <= obj@.len(),
            member_index(obj@.take(i as int), key@) is None,
        decreases obj@.len() - i,
    {
        proof {
            assert(obj@.take(i + 1).drop_last() =~= obj@.take(i as int));
        }
        if same_text(obj[i].0.as_str(), key) {
            proof {
                lemma_member_index_prefix(obj@, i + 1, key@);
            }
            return Some(&obj[i].1);
        }
        i = i + 1;
    }
    proof {
        assert(obj@.take(i as int) =~= obj@);
    }
    None
}

/// A member found in a prefix is the member found in the whole object.
proof fn lemma_member_index_prefix(obj: Seq<(String, JsonValue)>, k: int, key: Seq<char>)
    requires
        0 <= k <= obj.len(),
        member_index(obj.take(k), key) is Some,
    ensures
        member_index(obj, key) == member_index(obj.take(k), key),
    decreases obj.len() - k,
{
    if k < obj.len() {
        assert(obj.take(k + 1).drop_last() =~= obj.take(k));
        lemma_member_index_prefix(obj, k + 1, key);
    } else {
        assert(obj.take(k) =~= obj);
    }
}

/// A string member.
fn string_member<'a>(obj: &'a Vec<(String, JsonValue)>, key: &str) -> (r: Option<&'a String>)
    ensures
        r matches Some(s) ==> member_index(obj@, key@) matches Some(i) && obj@[i].1 == JsonValue::String(*s),
        r is None ==> !(member_index(obj@, key@) matches Some(i) && obj@[i].1 is String),
{
    match member(obj, key) {
        Some(JsonValue::String(s)) => Some(s),
        _ => None,
    }
}

/// A member that is a non-negative integer, as a `usize`.
fn opt_usize(obj: &Vec<(String, JsonValue)>, key: &str) -> (r: Option<usize>)
    ensures
        r == match member_index(obj@, key@) {
            Some(i) => match obj@[i].1 {
                JsonValue::Number(JsonNumber::PosInt(u)) => Some(u as usize),
                _ => None,
            },
            None => None,
        },
{
    match member(obj, key) {
        Some(JsonValue::Number(JsonNumber::PosInt(u))) => Some(*u as usize),
        _ => None,
    }
}

/// Schema number `m` stands for JSON number `n`: an integer as itself, one past the `i64`
/// range by its decimal text, a double by its text.
pub open spec fn json_number_is(m: Number, n: JsonNumber) -> bool {
    match (n, m) {
        (JsonNumber::PosInt(u), Number::Int(i)) => u <= i64::MAX && i == u,
        (JsonNumber::PosInt(u), Number::Float(t)) => u > i64::MAX && t@ == crate::text::decimal_text(u as nat),
        (JsonNumber::NegInt(a), Number::Int(b)) => a == b,
        (JsonNumber::Float(a), Number::Float(b)) => a@ == b@,
        _ => false,
    }
}

/// The text of member `key` when it is a string.
pub open spec fn text_member(obj: Seq<(String, JsonValue)>, key: Seq<char>) -> Option<Seq<char>> {
    match member_index(obj, key) {
        Some(i) => match obj[i].1 {
            JsonValue::String(s) => Some(s@),
            _ => None,
        },
        None => None,
    }
}

/// `r` is what member `key` gives as a number: the number it holds, or nothing.
pub open spec fn number_member(obj: Seq<(String, JsonValue)>, key: Seq<char>, r: Option<Number>) -> bool {
    match member_index(obj, key) {
        Some(i) => match obj[i].1 {
            JsonValue::Number(n) => r matches Some(m) && json_number_is(m, n),
            _ => r is None,
        },
        None => r is None,
    }
}

/// A member that is a number.
fn opt_number(obj: &Vec<(String, JsonValue)>, key: &str) -> (r: Option<Number>)
    ensures
        match member_index(obj@, key@) {
            Some(i) => match obj@[i].1 {
                JsonValue::Number(n) => r matches Some(m) && json_number_is(m, n),
                _ => r is None,
            },
            None => r is None,
        },
{
    match member(obj, key) {
        Some(JsonValue::Number(n)) => Some(match n {
            JsonNumber::PosInt(u) => if *u <= 9223372036854775807u64 {
                Number::Int(*u as i64)
            } else {
                Number::Float(string_from_chars(crate::text::decimal_u64_chars(*u).as_slice()))
            },
            JsonNumber::NegInt(i) => Number::Int(*i),
            JsonNumber::Float(t) => Number::Float(t.clone()),
        }),
        _ => None,
    }
}

fn message(a: &str, b: &str) -> (r: String)
    ensures
        r@ == a@ + b@,
{
    let mut v: Vec<char> = Vec::new();
    push_text(&mut v, a);
    push_text(&mut v, b);
    string_from_chars(v.as_slice())
}

fn invalid(msg: &str) -> (e: Error)
    ensures
        e matches Error::InvalidSchema(m) && m@ == msg@,
{
    Error::InvalidSchema(msg.to_string())
}

/// Compiles a schema written as a JSON value: `$defs` first, then the root schema, where a
/// `$ref` is not checked against the definitions.
pub fn compile_json(value: &JsonValue) -> (r: Result<(Schema, Vec<(String, Schema)>), Error>)
    ensures
        !(value is Object) ==> (r matches Err(Error::InvalidSchema(m)) && m@ == "schema root must be an object"@),
        (value matches JsonValue::Object(obj) && member_index(obj@, "$defs"@) matches Some(i) && !(obj@[i].1 is Object))
            ==> (r matches Err(Error::InvalidSchema(m)) && m@ == "$defs must be an object"@),
        r matches Ok((_, defs)) ==> defs_distinct(defs@),
        value matches JsonValue::Object(obj) ==> (member_index(obj@, "$defs"@) is None ==> json_decided(
            obj@,
            Seq::empty(),
            root_result(r),
        )),
        value matches JsonValue::Object(obj) ==> (member_index(obj@, "$defs"@) is None && string_text(obj@, "$ref"@) is None
            && string_text(obj@, "type"@) is None ==> json_form_decided(obj@, Seq::empty(), root_result(r))),
        value matches JsonValue::Object(obj) ==> (member_index(obj@, "$defs"@) matches Some(k) ==> (obj@[k].1 matches JsonValue::Object(
            d,
        ) ==> (r matches Ok((root, defs)) ==> {
            &&& defs_of_members(d@, member_names(d@), defs@)
            &&& json_decided(obj@, member_names(d@), Ok(root))
            &&& string_text(obj@, "$ref"@) is None && string_text(obj@, "type"@) is None ==> json_form_decided(
                obj@,
                member_names(d@),
                Ok(root),
            )
        }))),
{
    let obj = match value {
        JsonValue::Object(obj) => obj,
        _ => {
            return Err(invalid("schema root must be an object"));
        },
    };
    let mut names: Vec<String> = Vec::new();
    if let Some(JsonValue::Object(defs_obj)) = member(obj, "$defs") {
        let mut i: usize = 0;
        while i < defs_obj.len()
            invariant
                i <= defs_obj@.len(),
                names@ == member_names(defs_obj@.take(i as int)),
            decreases defs_obj@.len() - i,
        {
            names.push(defs_obj[i].0.clone());
            proof {
                assert(member_names(defs_obj@.take(i + 1)) =~= member_names(defs_obj@.take(i as int)).push(defs_obj@[i as int].0));
            }
            i = i + 1;
        }
        proof {
            assert(defs_obj@.take(defs_obj@.len() as int) =~= defs_obj@);
        }
    }
    let mut defs: Vec<(String, Schema)> = Vec::new();
    match member(obj, "$defs") {
        Some(JsonValue::Object(defs_obj)) => {
            let ghost k = member_index(obj@, "$defs"@)->Some_0;
            let mut i: usize = 0;
            while i < defs_obj.len()
                invariant
                    i <= defs_obj@.len(),
                    defs_distinct(defs@),
                    *value == JsonValue::Object(*obj),
                    member_index(obj@, "$defs"@) == Some(k),
                    0 <= k < obj@.len(),
                    obj@[k].1 == JsonValue::Object(*defs_obj),
                    names@ == member_names(defs_obj@),
                    defs_of_members(defs_obj@.take(i as int), names@, defs@),
                decreases defs_obj@.len() - i,
            {
                let schema = match json_to_schema(&defs_obj[i].1, &names) {
                    Ok(s) => s,
                    Err(e) => {
                        return Err(e);
                    },
                };
                let ghost before = defs@;
                let ghost member = defs_obj@[i as int];
                insert_def(&mut defs, defs_obj[i].0.clone(), schema);
                proof {
                    assert(defs_obj@.take(i + 1) =~= defs_obj@.take(i as int).push(member));
                    reveal(def_compiled);
                    lemma_defs_step(defs_obj@.take(i as int), member, names@, before, defs@, schema);
                }
                i = i + 1;
            }
            proof {
                assert(defs_obj@.take(defs_obj@.len() as int) =~= defs_obj@);
            }
        },
        Some(_) => {
            return Err(invalid("$defs must be an object"));
        },
        None => {},
    }
    assert(member_index(obj@, "$defs"@) is None ==> names@ =~= Seq::<String>::empty());
    match json_mapping_entries(obj, &names) {
        Ok(root) => Ok((root, defs)),
        Err(e) => Err(e),
    }
}

/// The names of `members`, in order.
pub open spec fn member_names(members: Seq<(String, JsonValue)>) -> Seq<String> {
    members.map_values(|m: (String, JsonValue)| m.0)
}

/// Every name of `members` has one of `defs`.
pub open spec fn names_covered(members: Seq<(String, JsonValue)>, defs: Seq<(String, Schema)>) -> bool {
    forall|j: int| #![trigger members[j]] 0 <= j < members.len() ==> exists|i: int| #![trigger defs[i]] 0 <= i < defs.len() && defs[i].0@ == members[j].0@
}

/// Definition schema `s` was compiled from member value `v` (see `json_child`).
#[verifier::opaque]
pub open spec fn def_compiled(v: JsonValue, names: Seq<String>, s: Schema) -> bool {
    json_child(v, names, s)
}

/// Definition `d` is the schema compiled from a member of `members` of its name.
pub open spec fn justified_by(members: Seq<(String, JsonValue)>, names: Seq<String>, d: (String, Schema)) -> bool {
    exists|j: int| 0 <= j < members.len() && (#[trigger] members[j]).0@ == d.0@ && def_compiled(members[j].1, names, d.1)
}

/// Every one of `defs` is the schema compiled from a member of `members` of its name,
/// references checked against `names`.
pub open spec fn defs_justified(members: Seq<(String, JsonValue)>, names: Seq<String>, defs: Seq<(String, Schema)>) -> bool {
    forall|i: int| 0 <= i < defs.len() ==> justified_by(members, names, #[trigger] defs[i])
}

/// `defs` are the definitions the `$defs` members `members` compile to: one for each member
/// name, each the schema compiled from a member of that name, references checked against
/// `names`.
pub open spec fn defs_of_members(members: Seq<(String, JsonValue)>, names: Seq<String>, defs: Seq<(String, Schema)>) -> bool {
    &&& names_covered(members, defs)
    &&& defs_justified(members, names, defs)
}

proof fn lemma_defs_step(
    prev: Seq<(String, JsonValue)>,
    member: (String, JsonValue),
    names: Seq<String>,
    before: Seq<(String, Schema)>,
    after: Seq<(String, Schema)>,
    schema: Schema,
)
    requires
        defs_of_members(prev, names, before),
        def_compiled(member.1, names, schema),
        exists|i: int| 0 <= i < after.len() && (#[trigger] after[i]).0@ == member.0@,
        forall|j: int| 0 <= j < after.len() && (#[trigger] after[j]).0@ == member.0@ ==> after[j].1 == schema,
        forall|j: int| 0 <= j < after.len() && (#[trigger] after[j]).0@ != member.0@ ==> exists|k: int|
            0 <= k < before.len() && #[trigger] before[k] == after[j],
        forall|k: int| 0 <= k < before.len() && (#[trigger] before[k]).0@ != member.0@ ==> exists|j: int|
            0 <= j < after.len() && #[trigger] after[j] == before[k],
    ensures
        defs_of_members(prev.push(member), names, after),
{
    lemma_defs_names(prev, member, before, after);
    lemma_defs_schemas(prev, member, names, before, after, schema);
}

proof fn lemma_defs_names(
    prev: Seq<(String, JsonValue)>,
    member: (String, JsonValue),
    before: Seq<(String, Schema)>,
    after: Seq<(String, Schema)>,
)
    requires
        names_covered(prev, before),
        exists|i: int| 0 <= i < after.len() && (#[trigger] after[i]).0@ == member.0@,
        forall|k: int| 0 <= k < before.len() && (#[trigger] before[k]).0@ != member.0@ ==> exists|j: int|
            0 <= j < after.len() && #[trigger] after[j] == before[k],
    ensures
        names_covered(prev.push(member), after),
{
    let ms = prev.push(member);
    assert forall|j: int| #![trigger ms[j]] 0 <= j < ms.len() implies exists|a: int| #![trigger after[a]] 0 <= a < after.len() && after[a].0@ == ms[j].0@ by {
        if j == prev.len() {
            assert(ms[j] == member);
            let b = choose|b: int| 0 <= b < after.len() && (#[trigger] after[b]).0@ == member.0@;
            assert(after[b].0@ == ms[j].0@);
        } else {
            assert(ms[j] == prev[j]);
            let a0 = choose|a0: int| #![trigger before[a0]] 0 <= a0 < before.len() && before[a0].0@ == prev[j].0@;
            if before[a0].0@ != member.0@ {
                let b = choose|b: int| 0 <= b < after.len() && #[trigger] after[b] == before[a0];
                assert(after[b].0@ == ms[j].0@);
            } else {
                let b = choose|b: int| 0 <= b < after.len() && (#[trigger] after[b]).0@ == member.0@;
                assert(after[b].0@ == ms[j].0@);
            }
        }
    }
    assert(names_covered(ms, after));
}

proof fn lemma_defs_schemas(
    prev: Seq<(String, JsonValue)>,
    member: (String, JsonValue),
    names: Seq<String>,
    before: Seq<(String, Schema)>,
    after: Seq<(String, Schema)>,
    schema: Schema,
)
    requires
        defs_justified(prev, names, before),
        def_compiled(member.1, names, schema),
        forall|j: int| 0 <= j < after.len() && (#[trigger] after[j]).0@ == member.0@ ==> after[j].1 == schema,
        forall|j: int| 0 <= j < after.len() && (#[trigger] after[j]).0@ != member.0@ ==> exists|k: int|
            0 <= k < before.len() && #[trigger] before[k] == after[j],
    ensures
        defs_justified(prev.push(member), names, after),
{
    let ms = prev.push(member);
    assert forall|a: int| 0 <= a < after.len() implies justified_by(ms, names, #[trigger] after[a]) by {
        if after[a].0@ == member.0@ {
            assert(ms[prev.len() as int] == member);
            assert(ms[prev.len() as int].0@ == after[a].0@ && def_compiled(ms[prev.len() as int].1, names, after[a].1));
        } else {
            let c = choose|c: int| 0 <= c < before.len() && #[trigger] before[c] == after[a];
            assert(justified_by(prev, names, before[c]));
            let j0 = choose|j0: int| 0 <= j0 < prev.len() && (#[trigger] prev[j0]).0@ == before[c].0@ && def_compiled(prev[j0].1, names, before[c].1);
            assert(ms[j0] == prev[j0]);
            assert(ms[j0].0@ == after[a].0@ && def_compiled(ms[j0].1, names, after[a].1));
        }
    }
}

/// The root schema of a compiled document, or its error.
pub open spec fn root_result(r: Result<(Schema, Vec<(String, Schema)>), Error>) -> Result<Schema, Error> {
    match r {
        Ok((s, _)) => Ok(s),
        Err(e) => Err(e),
    }
}

/// Compiles a nested schema, which must be an object.
pub fn json_to_schema(value: &JsonValue, names: &Vec<String>) -> (r: Result<Schema, Error>)
    ensures
        !(value is Object) ==> (r matches Err(Error::InvalidSchema(m)) && m@ == "schema must be an object"@),
        value matches JsonValue::Object(obj) ==> json_decided(obj@, names@, r),
    decreases value, 3int,
{
    match value {
        JsonValue::Object(obj) => {
            proof {
                assert(decreases_to!(*value => value->Object_0));
            }
            json_mapping_entries(obj, names)
        },
        _ => Err(invalid("schema must be an object")),
    }
}

/// A string member's text.
pub open spec fn string_text(obj: Seq<(String, JsonValue)>, key: Seq<char>) -> Option<Seq<char>> {
    match member_index(obj, key) {
        Some(i) => match obj[i].1 {
            JsonValue::String(s) => Some(s@),
            _ => None,
        },
        None => None,
    }
}

/// What compiling a schema object with a `type` naming `t` gives: the form of that type,
/// with its numeric bounds and pattern read from their members.
pub open spec fn json_typed_decided(obj: Seq<(String, JsonValue)>, t: JsonType, r: Result<Schema, Error>) -> bool {
    &&& r matches Ok(s) ==> schema_of_type(s, t)
    &&& t is Null || t is Boolean ==> r == Ok::<Schema, Error>(Schema::Type(t))
    &&& t is Number ==> (r matches Ok(Schema::Number { minimum, maximum, exclusive_minimum, exclusive_maximum, multiple_of })
        && number_member(obj, "minimum"@, minimum) && number_member(obj, "maximum"@, maximum)
        && number_member(obj, "exclusiveMinimum"@, exclusive_minimum)
        && number_member(obj, "exclusiveMaximum"@, exclusive_maximum)
        && number_member(obj, "multipleOf"@, multiple_of))
    &&& t is String ==> match text_member(obj, "pattern"@) {
        Some(text) => match crate::pattern_spec::compile_model(text) {
            Err(_) => r matches Err(Error::InvalidPattern(m)) && m@ == text,
            Ok(pm) => r matches Ok(Schema::String { pattern, .. }) && pattern matches Some(q) && q@ == pm,
        },
        None => r matches Ok(Schema::String { pattern, .. }) && pattern is None,
    }
}

/// What compiling a schema object gives, as far as `$ref` and `type` decide it: a string
/// `$ref` first (naming an internal target; away from the root, one of `defs`), then a string
/// `type` (naming a known type, which picks the schema's form as [`json_typed_decided`] says).
pub open spec fn json_decided(obj: Seq<(String, JsonValue)>, names: Seq<String>, r: Result<Schema, Error>) -> bool {
    match string_text(obj, "$ref"@) {
        Some(name) => match ref_target_spec(name) {
            None => (r matches Err(Error::InvalidSchema(m)) && m@ == "only internal $refs are supported: "@ + name),
            Some(t) => if !names_target(names, t) {
                (r matches Err(Error::InvalidSchema(m)) && m@ == "unknown $ref target: "@ + name)
            } else {
                (r matches Ok(Schema::Ref(n)) && n@ == name)
            },
        },
        None => match string_text(obj, "type"@) {
            Some(name) => match json_type_named(name) {
                None => (r matches Err(Error::InvalidSchema(m)) && m@ == "unknown type: "@ + name),
                Some(t) => json_typed_decided(obj, t, r),
            },
            None => true,
        },
    }
}

/// The items of member `key` of `obj`, when it is an array.
pub open spec fn array_at(obj: Seq<(String, JsonValue)>, key: Seq<char>) -> Option<Seq<JsonValue>> {
    match member_index(obj, key) {
        Some(i) => match obj[i].1 {
            JsonValue::Array(items) => Some(items@),
            _ => None,
        },
        None => None,
    }
}

/// Schema `s` was compiled from `v`: an object, of which `$ref` and `type` decide as
/// [`json_decided`] says.
pub open spec fn json_child(v: JsonValue, names: Seq<String>, s: Schema) -> bool {
    v matches JsonValue::Object(o) && json_decided(o@, names, Ok(s))
}

/// Schemas `v`, one per value of `items`, each compiled from its value.
pub open spec fn json_children(items: Seq<JsonValue>, names: Seq<String>, v: Seq<Schema>) -> bool {
    &&& v.len() == items.len()
    &&& forall|k: int| 0 <= k < items.len() ==> json_child(#[trigger] items[k], names, v[k])
}

/// On success, a combinator member named `key` with array value `items` gives the matching
/// combinator with one compiled schema per item.
pub open spec fn json_list(items: Seq<JsonValue>, key: Seq<char>, names: Seq<String>, r: Result<Schema, Error>) -> bool {
    r matches Ok(s) ==> match s {
        Schema::OneOf(v) => key == "oneOf"@ && json_children(items, names, v@),
        Schema::AnyOf(v) => key == "anyOf"@ && json_children(items, names, v@),
        Schema::AllOf(v) => key == "allOf"@ && json_children(items, names, v@),
        _ => false,
    }
}

/// What compiling a schema object with neither a string `$ref` nor a string `type` gives: the
/// first of `oneOf`, `anyOf`, `allOf` whose value is an array, else `not` (a schema); an
/// object with none of these accepts everything.
pub open spec fn json_form_decided(obj: Seq<(String, JsonValue)>, names: Seq<String>, r: Result<Schema, Error>) -> bool {
    match array_at(obj, "oneOf"@) {
        Some(items) => json_list(items, "oneOf"@, names, r),
        None => match array_at(obj, "anyOf"@) {
            Some(items) => json_list(items, "anyOf"@, names, r),
            None => match array_at(obj, "allOf"@) {
                Some(items) => json_list(items, "allOf"@, names, r),
                None => match member_index(obj, "not"@) {
                    Some(k) => r matches Ok(s) ==> (s matches Schema::Not(inner) && json_child(obj[k].1, names, *inner)),
                    None => (r matches Ok(Schema::Constant(true))),
                },
            },
        },
    }
}

/// Compiles the schema given by the members of a JSON object. `defs` are the definitions
/// compiled so far; at the root, references are not checked against them.
fn json_mapping_entries(obj: &Vec<(String, JsonValue)>, names: &Vec<String>) -> (r: Result<Schema, Error>)
    ensures
        (member_index(obj@, "$ref"@) is None || !(obj@[member_index(obj@, "$ref"@)->Some_0].1 is String))
            && (member_index(obj@, "type"@) is None || !(obj@[member_index(obj@, "type"@)->Some_0].1 is String))
            && (member_index(obj@, "oneOf"@) is None || !(obj@[member_index(obj@, "oneOf"@)->Some_0].1 is Array))
            && (member_index(obj@, "anyOf"@) is None || !(obj@[member_index(obj@, "anyOf"@)->Some_0].1 is Array))
            && (member_index(obj@, "allOf"@) is None || !(obj@[member_index(obj@, "allOf"@)->Some_0].1 is Array))
            && member_index(obj@, "not"@) is None ==> r matches Ok(Schema::Constant(true)),
        json_decided(obj@, names@, r),
        string_text(obj@, "$ref"@) is None && string_text(obj@, "type"@) is None ==> json_form_decided(obj@, names@, r),
    decreases obj, 2int,
{
    if let Some(name) = string_member(obj, "$ref") {
        let internal = match ref_target(name.as_str()) {
            Some(t) => t,
            None => {
                return Err(Error::InvalidSchema(message("only internal $refs are supported: ", name.as_str())));
            },
        };
        if !has_name(names, internal.as_str()) {
            return Err(Error::InvalidSchema(message("unknown $ref target: ", name.as_str())));
        }
        return Ok(Schema::Ref(name.clone()));
    }
    if let Some(name) = string_member(obj, "type") {
        let json_type = match JsonType::from_name(name.as_str()) {
            Some(t) => t,
            None => {
                return Err(Error::InvalidSchema(message("unknown type: ", name.as_str())));
            },
        };
        return json_typed(obj, json_type, names);
    }
    let mut variant: usize = 0;
    while variant < 3
        invariant
            member_index(obj@, "$ref"@) is None || !(obj@[member_index(obj@, "$ref"@)->Some_0].1 is String),
            string_text(obj@, "$ref"@) is None,
            string_text(obj@, "type"@) is None,
            variant <= 3,
            variant >= 1 ==> array_at(obj@, "oneOf"@) is None,
            variant >= 2 ==> array_at(obj@, "anyOf"@) is None,
            variant >= 3 ==> array_at(obj@, "allOf"@) is None,
        decreases 3 - variant,
    {
        let name = if variant == 0 { "oneOf" } else if variant == 1 { "anyOf" } else { "allOf" };
        if let Some(JsonValue::Array(items)) = member(obj, name) {
            let ghost k = member_index(obj@, name@)->Some_0;
            let mut schemas: Vec<Schema> = Vec::new();
            let mut i: usize = 0;
            while i < items.len()
                invariant
                    i <= items@.len(),
                    0 <= k < obj@.len(),
                    member_index(obj@, name@) == Some(k),
                    string_text(obj@, "$ref"@) is None,
                    string_text(obj@, "type"@) is None,
                    name@ == "oneOf"@ || name@ == "anyOf"@ || name@ == "allOf"@,
                    obj@[k].1 == JsonValue::Array(*items),
                    array_at(obj@, name@) == Some(items@),
                    variant < 3,
                    variant == 0 ==> name@ == "oneOf"@,
                    variant == 1 ==> name@ == "anyOf"@,
                    variant == 2 ==> name@ == "allOf"@,
                    variant >= 1 ==> array_at(obj@, "oneOf"@) is None,
                    variant >= 2 ==> array_at(obj@, "anyOf"@) is None,
                    schemas@.len() == i,
                    forall|j: int| 0 <= j < i ==> json_child(#[trigger] items@[j], names@, schemas@[j]),
                decreases items@.len() - i,
            {
                proof {
                    vstd::std_specs::vec::axiom_vec_index_decreases(*obj, k);
                    assert(decreases_to!(obj@[k] => obj@[k].1));
                    assert(decreases_to!(obj@[k].1 => obj@[k].1->Array_0));
                    vstd::std_specs::vec::axiom_vec_index_decreases(*items, i as int);
                    assert(decreases_to!(*obj => items[i as int]));
                }
                let s = match json_to_schema(&items[i], names) {
                    Ok(s) => s,
                    Err(e) => {
                        return Err(e);
                    },
                };
                schemas.push(s);
                i = i + 1;
            }
            return Ok(if variant == 0 {
                Schema::OneOf(schemas)
            } else if variant == 1 {
                Schema::AnyOf(schemas)
            } else {
                Schema::AllOf(schemas)
            });
        }
        variant = variant + 1;
    }
    if let Some(inner) = member(obj, "not") {
        proof {
            let k = member_index(obj@, "not"@)->Some_0;
            vstd::std_specs::vec::axiom_vec_index_decreases(*obj, k);
            assert(decreases_to!(obj@[k] => obj@[k].1));
            assert(decreases_to!(*obj => obj@[k].1));
        }
        let s = match json_to_schema(inner, names) {
            Ok(s) => s,
            Err(e) => {
                return Err(e);
            },
        };
        return Ok(Schema::Not(Box::new(s)));
    }
    Ok(Schema::Constant(true))
}

/// The schema of member `key` of `obj`, when it has one.
fn member_schema(obj: &Vec<(String, JsonValue)>, key: &str, names: &Vec<String>) -> (r: Result<Option<Schema>, Error>)
    ensures
        member_index(obj@, key@) is None ==> r matches Ok(None),
        member_index(obj@, key@) matches Some(k) ==> ({
            let v = obj@[k].1;
            &&& !(r matches Ok(None))
            &&& !(v is Object) ==> (r matches Err(Error::InvalidSchema(m)) && m@ == "schema must be an object"@)
            &&& v matches JsonValue::Object(o) ==> json_decided(o@, names@, match r {
                Ok(Some(s)) => Ok(s),
                Ok(None) => Ok(Schema::Constant(true)),
                Err(e) => Err(e),
            })
        }),
    decreases obj, 0int,
{
    match member(obj, key) {
        Some(v) => {
            proof {
                let k = member_index(obj@, key@)->Some_0;
                vstd::std_specs::vec::axiom_vec_index_decreases(*obj, k);
                assert(decreases_to!(obj@[k] => obj@[k].1));
                assert(decreases_to!(*obj => obj@[k].1));
            }
            let s = json_to_schema(v, names)?;
            Ok(Some(s))
        },
        None => Ok(None),
    }
}

/// Compiles a schema object with a `type` member.
fn json_typed(obj: &Vec<(String, JsonValue)>, json_type: JsonType, names: &Vec<String>) -> (r: Result<Schema, Error>)
    ensures
        json_typed_decided(obj@, json_type, r),
    decreases obj, 1int,
{
    match json_type {
        JsonType::Null | JsonType::Boolean => Ok(Schema::Type(json_type)),
        JsonType::String => {
            let pattern = match string_member(obj, "pattern") {
                Some(source) => match compile_pattern(source.as_str()) {
                    Ok(p) => Some(p),
                    Err(()) => {
                        return Err(Error::InvalidPattern(source.clone()));
                    },
                },
                None => None,
            };
            Ok(Schema::String { min_length: opt_usize(obj, "minLength"), max_length: opt_usize(obj, "maxLength"), pattern })
        },
        JsonType::Number => Ok(Schema::Number {
            minimum: opt_number(obj, "minimum"),
            maximum: opt_number(obj, "maximum"),
            exclusive_minimum: opt_number(obj, "exclusiveMinimum"),
            exclusive_maximum: opt_number(obj, "exclusiveMaximum"),
            multiple_of: opt_number(obj, "multipleOf"),
        }),
        JsonType::Array => {
            let items = match member_schema(obj, "items", names)? {
                Some(s) => Some(Box::new(s)),
                None => None,
            };
            let unique_items = match member(obj, "uniqueItems") {
                Some(JsonValue::Bool(b)) => *b,
                _ => false,
            };
            Ok(Schema::Array { items, min_items: opt_usize(obj, "minItems"), max_items: opt_usize(obj, "maxItems"), unique_items })
        },
        JsonType::Object => {
            let mut properties: Vec<(String, Schema)> = Vec::new();
            match member(obj, "properties") {
                Some(JsonValue::Object(props)) => {
                    let ghost k = member_index(obj@, "properties"@)->Some_0;
                    let mut i: usize = 0;
                    while i < props.len()
                        invariant
                            json_type == JsonType::Object,
                            i <= props@.len(),
                            0 <= k < obj@.len(),
                            obj@[k].1 == JsonValue::Object(*props),
                        decreases props@.len() - i,
                    {
                        proof {
                            vstd::std_specs::vec::axiom_vec_index_decreases(*obj, k);
                            assert(decreases_to!(obj@[k] => obj@[k].1));
                            assert(decreases_to!(obj@[k].1 => obj@[k].1->Object_0));
                            vstd::std_specs::vec::axiom_vec_index_decreases(*props, i as int);
                            assert(decreases_to!(props[i as int] => props[i as int].1));
                            assert(decreases_to!(*obj => props[i as int].1));
                        }
                        let s = json_to_schema(&props[i].1, names)?;
                        properties.push((crate::schema::entry_name(props[i].0.as_str()), s));
                        i = i + 1;
                    }
                },
                Some(_) => {
                    return Err(invalid("properties must be an object"));
                },
                None => {},
            }
            let mut required: Vec<String> = Vec::new();
            match member(obj, "required") {
                Some(JsonValue::Array(items)) => {
                    let mut i: usize = 0;
                    while i < items.len()
                        invariant
                            json_type == JsonType::Object,
                            i <= items@.len(),
                        decreases items@.len() - i,
                    {
                        match &items[i] {
                            JsonValue::String(s) => required.push(s.clone()),
                            _ => {
                                return Err(invalid("required entries must be strings"));
                            },
                        }
                        i = i + 1;
                    }
                },
                Some(_) => {
                    return Err(invalid("required must be an array"));
                },
                None => {},
            }
            let additional = match member(obj, "additionalProperties") {
                Some(JsonValue::Bool(false)) => Additional::Forbid,
                Some(JsonValue::Bool(true)) => Additional::Allow,
                None => Additional::Allow,
                Some(_) => match member_schema(obj, "additionalProperties", names)? {
                    Some(s) => Additional::Schema(Box::new(s)),
                    None => Additional::Allow,
                },
            };
            Ok(Schema::Object {
                properties,
                required,
                additional,
                min_properties: opt_usize(obj, "minProperties"),
                max_properties: opt_usize(obj, "maxProperties"),
            })
        },
    }
}

} // verus!
