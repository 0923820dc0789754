use tpt_yaml::schema::{Error, JsonType};
use tpt_yaml::schema_compile::{Additional, Number, Schema};
use tpt_yaml::schema_validate::SchemaDocument;
use tpt_yaml::schema_json::{compile_json, json_to_schema, JsonNumber, JsonValue};

fn obj(members: Vec<(&str, JsonValue)>) -> JsonValue {
    JsonValue::Object(members.into_iter().map(|(k, v)| (k.to_string(), v)).collect())
}

fn text(s: &str) -> JsonValue {
    JsonValue::String(s.to_string())
}

fn invalid(r: Result<(Schema, Vec<(String, Schema)>), Error>) -> String {
    match r {
        Err(Error::InvalidSchema(m)) => m,
        other => panic!("expected an invalid schema, got {other:?}"),
    }
}

#[test]
fn compiles_an_object_schema_with_definitions() {
    let schema = obj(vec![
        ("$defs", obj(vec![("name", obj(vec![("type", text("string")), ("minLength", JsonValue::Number(JsonNumber::PosInt(1)))]))])),
        ("properties", obj(vec![("age", obj(vec![("type", text("integer"))])), ("name", obj(vec![("type", text("string"))]))])),
        ("required", JsonValue::Array(vec![text("name")])),
        ("additionalProperties", JsonValue::Bool(false)),
        ("type", text("object")),
    ]);
    let (root, defs) = compile_json(&schema).unwrap();
    assert_eq!(defs.len(), 1);
    assert_eq!(defs[0].0, "name");
    assert!(matches!(defs[0].1, Schema::String { min_length: Some(1), max_length: None, pattern: None }));
    match root {
        Schema::Object { properties, required, additional, .. } => {
            assert_eq!(properties.len(), 2);
            assert_eq!(properties[0].0, "age");
            assert!(matches!(properties[0].1, Schema::Number { minimum: None, .. }));
            assert!(matches!(&properties[1].1, Schema::String { .. }));
            assert_eq!(required, vec!["name".to_string()]);
            assert!(matches!(additional, Additional::Forbid));
        }
        other => panic!("expected an object schema, got {other:?}"),
    }
}

#[test]
fn numbers_keep_their_values() {
    let schema = obj(vec![
        ("type", text("number")),
        ("minimum", JsonValue::Number(JsonNumber::NegInt(-3))),
        ("maximum", JsonValue::Number(JsonNumber::Float("2.5".to_string()))),
        ("multipleOf", JsonValue::Number(JsonNumber::PosInt(u64::MAX))),
    ]);
    match json_to_schema(&schema, &Vec::new()).unwrap() {
        Schema::Number { minimum, maximum, multiple_of, exclusive_minimum, .. } => {
            assert_eq!(minimum, Some(Number::Int(-3)));
            assert_eq!(maximum, Some(Number::Float("2.5".to_string())));
            assert_eq!(multiple_of, Some(Number::Float("18446744073709551615".to_string())));
            assert_eq!(exclusive_minimum, None);
        }
        other => panic!("expected a number schema, got {other:?}"),
    }
}

#[test]
fn combinators_and_the_empty_schema() {
    let any = obj(vec![("anyOf", JsonValue::Array(vec![obj(vec![("type", text("null"))]), obj(vec![])]))]);
    match json_to_schema(&any, &Vec::new()).unwrap() {
        Schema::AnyOf(items) => {
            assert_eq!(items.len(), 2);
            assert!(matches!(items[0], Schema::Type(JsonType::Null)));
            assert!(matches!(items[1], Schema::Constant(true)));
        }
        other => panic!("expected anyOf, got {other:?}"),
    }
    assert!(matches!(json_to_schema(&obj(vec![("not", obj(vec![]))]), &Vec::new()).unwrap(), Schema::Not(_)));
    assert!(matches!(json_to_schema(&obj(vec![("description", text("x"))]), &Vec::new()).unwrap(), Schema::Constant(true)));
}

#[test]
fn rejects_malformed_schemas() {
    assert_eq!(invalid(compile_json(&JsonValue::Array(vec![]))), "schema root must be an object");
    assert_eq!(invalid(compile_json(&obj(vec![("$defs", JsonValue::Null)]))), "$defs must be an object");
    assert_eq!(invalid(compile_json(&obj(vec![("type", text("nope"))]))), "unknown type: nope");
    assert_eq!(invalid(compile_json(&obj(vec![("$ref", text("http://x"))]))), "only internal $refs are supported: http://x");
    assert_eq!(
        invalid(compile_json(&obj(vec![("type", text("object")), ("properties", JsonValue::Bool(true))]))),
        "properties must be an object"
    );
    assert_eq!(
        invalid(compile_json(&obj(vec![("type", text("object")), ("required", JsonValue::Array(vec![JsonValue::Null]))]))),
        "required entries must be strings"
    );
    assert_eq!(
        invalid(compile_json(&obj(vec![("items", text("x")), ("type", text("array"))]))),
        "schema must be an object"
    );
    assert!(matches!(
        compile_json(&obj(vec![("pattern", text("[abc")), ("type", text("string"))])),
        Err(Error::InvalidPattern(p)) if p == "[abc"
    ));
}

#[test]
fn a_nested_reference_needs_a_known_definition() {
    let nested = obj(vec![("type", text("array")), ("items", obj(vec![("$ref", text("#/$defs/x"))]))]);
    assert_eq!(invalid(compile_json(&nested)), "unknown $ref target: #/$defs/x");
    let root_ref = obj(vec![("$ref", text("#/x"))]);
    assert_eq!(invalid(compile_json(&root_ref)), "unknown $ref target: #/x");
    let known = obj(vec![("$defs", obj(vec![("x", obj(vec![]))])), ("$ref", text("#/x"))]);
    assert!(matches!(compile_json(&known).unwrap().0, Schema::Ref(r) if r == "#/x"));
}

#[test]
fn from_json_str_reads_and_compiles() {
    let s = SchemaDocument::from_json_str("{\"type\": \"object\", \"properties\": {\"a\": {\"type\": \"string\"}}}");
    assert!(s.is_ok());
    assert!(matches!(SchemaDocument::from_json_str("{\"type\": "), Err(Error::Parse(_))));
    assert!(matches!(SchemaDocument::from_json_str("[1, 2]"), Err(Error::InvalidSchema(_))));
    assert!(matches!(SchemaDocument::from_json_str("{\"type\": \"string\", \"pattern\": \"*a\"}"), Err(Error::InvalidPattern(_))));
    let doc = SchemaDocument::from_json_str("{\"type\": \"number\", \"maximum\": 2.5}").unwrap();
    match doc.root {
        Schema::Number { maximum: Some(Number::Float(t)), .. } => assert_eq!(t, "2.5"),
        _ => panic!("expected a number schema"),
    }
}

#[test]
fn internal_refs_inside_json_properties_resolve() {
    let s = SchemaDocument::from_json_str(
        "{\"$defs\": {\"n\": {\"type\": \"string\"}}, \"type\": \"object\", \"properties\": {\"a\": {\"$ref\": \"#/$defs/n\"}}}",
    );
    assert!(s.is_ok());
    assert!(matches!(
        SchemaDocument::from_json_str("{\"type\": \"object\", \"properties\": {\"a\": {\"$ref\": \"#/$defs/n\"}}}"),
        Err(Error::InvalidSchema(_))
    ));
}

#[test]
fn the_first_array_combinator_wins_and_a_non_array_one_is_skipped() {
    let schema = obj(vec![
        ("oneOf", text("not a list")),
        ("allOf", JsonValue::Array(vec![obj(vec![("type", text("null"))]), obj(vec![])])),
        ("not", obj(vec![("type", text("string"))])),
    ]);
    let (root, _) = compile_json(&schema).unwrap();
    match root {
        Schema::AllOf(parts) => {
            assert_eq!(parts.len(), 2);
            assert!(matches!(parts[0], Schema::Type(JsonType::Null)));
            assert!(matches!(parts[1], Schema::Constant(true)));
        }
        other => panic!("{other:?}"),
    }
    let (root, _) = compile_json(&obj(vec![("not", obj(vec![("type", text("boolean"))]))])).unwrap();
    match root {
        Schema::Not(inner) => assert!(matches!(*inner, Schema::Type(JsonType::Boolean))),
        other => panic!("{other:?}"),
    }
}

#[test]
fn json_definitions_and_a_reference_in_properties() {
    let source = r##"{"$defs":{"x":{"type":"null"}},"type":"object","properties":{"a":{"$ref":"#/$defs/x"}}}"##;
    let sd = SchemaDocument::from_json_str(source).unwrap();
    assert_eq!(sd.defs.len(), 1);
    assert_eq!(sd.defs[0].0, "x");
    assert!(matches!(sd.defs[0].1, Schema::Type(JsonType::Null)));
    match &sd.root {
        Schema::Object { properties, .. } => {
            assert_eq!(properties.len(), 1);
            assert_eq!(properties[0].0, "a");
            assert!(matches!(&properties[0].1, Schema::Ref(r) if r == "#/$defs/x"));
        }
        other => panic!("{other:?}"),
    }
}
