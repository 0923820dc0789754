use tpt_yaml::ffi::{node_id_from_ffi, node_id_to_ffi, TptYamlErrorCode, TptYamlNodeKind, TptYamlScalarType};
use tpt_yaml::node::NodeId;

#[test]
fn c_codes() {
    assert_eq!(TptYamlErrorCode::Success.code(), 0);
    assert_eq!(TptYamlErrorCode::ParseError.code(), 1);
    assert_eq!(TptYamlErrorCode::PanicCaught.code(), 6);
    assert_eq!(TptYamlNodeKind::Scalar.code(), 0);
    assert_eq!(TptYamlNodeKind::Alias.code(), 3);
    assert_eq!(TptYamlScalarType::Null.code(), 0);
    assert_eq!(TptYamlScalarType::Timestamp.code(), 5);
}

#[test]
fn node_handles_round_trip() {
    assert_eq!(node_id_to_ffi(node_id_from_ffi(42)), 42);
    assert_eq!(node_id_from_ffi(node_id_to_ffi(NodeId(9))), NodeId(9));
}

use tpt_yaml::document::Document;
use tpt_yaml::ffi_query::{
    alias_target, document_root, document_version, mapping_get, mapping_key_at, mapping_len, mapping_value_at,
    node_kind, scalar_as_bool, scalar_as_int, scalar_float_text, scalar_string, scalar_type, sequence_item,
    sequence_len,
};
use tpt_yaml::node::ParserOptions;
use tpt_yaml::parser::{parse_with, SexagesimalFloats};

struct NoSexagesimal;

impl SexagesimalFloats for NoSexagesimal {
    fn is_sexagesimal_float(&self, _text: &str) -> bool {
        false
    }
}

fn parse_ok(source: &str) -> Document {
    parse_with(source, &ParserOptions::default(), &NoSexagesimal).unwrap()
}

#[test]
fn parses_and_queries_a_simple_mapping() {
    let doc = parse_ok("name: Ada\ncount: 3\nok: true\n");
    let root = document_root(&doc).unwrap();
    assert_eq!(node_kind(&doc, root), Ok(TptYamlNodeKind::Mapping));
    assert_eq!(mapping_len(&doc, root), Ok(3));
    let value = mapping_get(&doc, root, "name").unwrap();
    assert_eq!(scalar_string(&doc, value).map(|s| s.as_str()), Ok("Ada"));
    let value = mapping_get(&doc, root, "count").unwrap();
    assert_eq!(scalar_as_int(&doc, value), Ok(3));
    let value = mapping_get(&doc, root, "ok").unwrap();
    assert_eq!(scalar_as_bool(&doc, value), Ok(true));
}

#[test]
fn parses_and_walks_a_sequence() {
    let doc = parse_ok("- 1\n- 2\n- 3\n");
    let root = document_root(&doc).unwrap();
    assert_eq!(sequence_len(&doc, root), Ok(3));
    let item = sequence_item(&doc, root, 1).unwrap();
    assert_eq!(scalar_as_int(&doc, item), Ok(2));
    assert_eq!(sequence_item(&doc, root, 99), Err(TptYamlErrorCode::IndexOutOfBounds));
}

#[test]
fn out_of_bounds_node_id_is_reported() {
    let doc = parse_ok("a: 1\n");
    assert_eq!(node_kind(&doc, 9_999), Err(TptYamlErrorCode::IndexOutOfBounds));
}

#[test]
fn type_mismatch_is_reported_for_wrong_accessor() {
    let doc = parse_ok("42\n");
    let root = document_root(&doc).unwrap();
    assert_eq!(mapping_len(&doc, root), Err(TptYamlErrorCode::TypeMismatch));
    assert_eq!(scalar_as_bool(&doc, root), Err(TptYamlErrorCode::TypeMismatch));
}

#[test]
fn entries_types_aliases_and_versions() {
    let doc = parse_ok("%YAML 1.1\n---\na: &x 1.5\nb: *x\nc: 2001-12-14\nd: ~\n");
    assert_eq!(document_version(&doc), (1, 1));
    let root = document_root(&doc).unwrap();
    let key = mapping_key_at(&doc, root, 1).unwrap();
    assert_eq!(scalar_string(&doc, key).map(|s| s.as_str()), Ok("b"));
    let a = mapping_value_at(&doc, root, 0).unwrap();
    assert_eq!(scalar_type(&doc, a), Ok(TptYamlScalarType::Float));
    assert_eq!(scalar_float_text(&doc, a).map(|s| s.as_str()), Ok("1.5"));
    let b = mapping_get(&doc, root, "b").unwrap();
    assert_eq!(node_kind(&doc, b), Ok(TptYamlNodeKind::Alias));
    assert_eq!(alias_target(&doc, b), Ok(a));
    assert_eq!(alias_target(&doc, a), Err(TptYamlErrorCode::TypeMismatch));
    let c = mapping_get(&doc, root, "c").unwrap();
    assert_eq!(scalar_type(&doc, c), Ok(TptYamlScalarType::Timestamp));
    assert_eq!(scalar_string(&doc, c).map(|s| s.as_str()), Ok("2001-12-14"));
    let d = mapping_get(&doc, root, "d").unwrap();
    assert_eq!(scalar_type(&doc, d), Ok(TptYamlScalarType::Null));
    assert_eq!(mapping_get(&doc, root, "zz"), Err(TptYamlErrorCode::IndexOutOfBounds));
    assert_eq!(mapping_key_at(&doc, root, 9), Err(TptYamlErrorCode::IndexOutOfBounds));
    assert_eq!(document_version(&parse_ok("a: 1\n")), (1, 2));
}
