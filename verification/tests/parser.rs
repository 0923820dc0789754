use tpt_yaml::diagnostics::ErrorKind;
use tpt_yaml::document::{Document, NodeKind};
use tpt_yaml::node::{ParserOptions, ScalarValue};
use tpt_yaml::parser::{parse_with, SexagesimalFloats};
use tpt_yaml::version::YamlVersion;

/// Reads YAML 1.1 sexagesimal floats with double arithmetic.
struct Doubles;

impl SexagesimalFloats for Doubles {
    fn is_sexagesimal_float(&self, text: &str) -> bool {
        if !text.contains(':') {
            return false;
        }
        let value = text.replace(',', "");
        let parts: Vec<&str> = value.split(':').collect();
        if parts.len() == 2 || parts.len() == 3 {
            let whole = parts[0].parse::<f64>();
            let frac = parts[1].parse::<f64>();
            let sec = if parts.len() == 3 { parts[2].parse::<f64>() } else { Ok(0.0) };
            if let (Ok(_), Ok(frac), Ok(sec)) = (whole, frac, sec) {
                return (0.0..60.0).contains(&frac) && (0.0..60.0).contains(&sec);
            }
        }
        false
    }
}

fn parse(source: &str, options: &ParserOptions) -> Result<Document, tpt_yaml::diagnostics::YamlError> {
    parse_with(source, options, &Doubles)
}

fn parse_simple(source: &str) -> Document {
    parse(source, &ParserOptions::default()).unwrap()
}

fn root_kind(doc: &Document) -> &NodeKind {
    &doc.node(doc.root().unwrap()).unwrap().kind
}

#[test]
fn parses_simple_mapping() {
    let doc = parse_simple("key: value\n");
    assert_eq!(doc.documents.len(), 1);
    match root_kind(&doc) {
        NodeKind::Mapping(entries) => assert_eq!(entries.len(), 1),
        other => panic!("expected mapping, got {other:?}"),
    }
}

#[test]
fn parses_nested_mapping() {
    let doc = parse_simple("a:\n  b: 1\n  c: 2\n");
    assert_eq!(doc.documents.len(), 1);
    match root_kind(&doc) {
        NodeKind::Mapping(entries) => {
            assert_eq!(entries.len(), 1);
            match &doc.node(entries[0].1).unwrap().kind {
                NodeKind::Mapping(inner) => assert_eq!(inner.len(), 2),
                other => panic!("expected inner mapping, got {other:?}"),
            }
        }
        other => panic!("expected mapping, got {other:?}"),
    }
}

#[test]
fn parses_sequence() {
    let doc = parse_simple("- a\n- b\n- c\n");
    assert_eq!(doc.documents.len(), 1);
    match root_kind(&doc) {
        NodeKind::Sequence(items) => assert_eq!(items.len(), 3),
        other => panic!("expected sequence, got {other:?}"),
    }
}

#[test]
fn parses_sequence_value_aligned_with_key() {
    let doc = parse_simple("list:\n- a\n- b\n");
    match root_kind(&doc) {
        NodeKind::Mapping(entries) => {
            assert_eq!(entries.len(), 1);
            match &doc.node(entries[0].1).unwrap().kind {
                NodeKind::Sequence(items) => assert_eq!(items.len(), 2),
                other => panic!("expected sequence, got {other:?}"),
            }
        }
        other => panic!("expected mapping, got {other:?}"),
    }
}

#[test]
fn parses_mapping_after_nested_sequence() {
    let doc = parse_simple("items:\n  - a\n  - b\nname: end\n");
    match root_kind(&doc) {
        NodeKind::Mapping(entries) => assert_eq!(entries.len(), 2),
        other => panic!("expected mapping, got {other:?}"),
    }
}

#[test]
fn parses_flow_mapping() {
    let doc = parse_simple("{a: 1, b: 2}\n");
    match root_kind(&doc) {
        NodeKind::Mapping(entries) => assert_eq!(entries.len(), 2),
        other => panic!("expected mapping, got {other:?}"),
    }
}

#[test]
fn parses_flow_sequence() {
    let doc = parse_simple("[1, 2, 3]\n");
    match root_kind(&doc) {
        NodeKind::Sequence(items) => assert_eq!(items.len(), 3),
        other => panic!("expected sequence, got {other:?}"),
    }
}

#[test]
fn parses_anchors_and_aliases() {
    let doc = parse_simple("a: &x 1\nb: *x\n");
    match root_kind(&doc) {
        NodeKind::Mapping(entries) => {
            let b_value = entries[1].1;
            assert!(doc.is_alias(b_value));
        }
        other => panic!("expected mapping, got {other:?}"),
    }
}

#[test]
fn parses_block_scalar() {
    let doc = parse_simple("text: |\n  line one\n  line two\n");
    assert_eq!(doc.documents.len(), 1);
}

#[test]
fn parses_multiple_documents() {
    let doc = parse_simple("---\na: 1\n---\nb: 2\n");
    assert_eq!(doc.documents.len(), 2);
}

#[test]
fn parses_bare_document_then_explicit() {
    let doc = parse_simple("a: 1\n---\nb: 2\n");
    assert_eq!(doc.documents.len(), 2);
}

#[test]
fn rejects_trailing_content_without_separator() {
    let result = parse("a: 1\n]\n", &ParserOptions::default());
    assert!(result.is_err());
}

#[test]
fn parses_quoted_strings() {
    let doc = parse_simple("a: 'single'\nb: \"double\"\n");
    assert_eq!(doc.documents.len(), 1);
}

#[test]
fn quoted_scalars_are_not_type_resolved() {
    let doc = parse_simple("a: \"true\"\nb: '42'\n");
    match root_kind(&doc) {
        NodeKind::Mapping(entries) => {
            for (_, value_id) in entries {
                match &doc.node(*value_id).unwrap().kind {
                    NodeKind::Scalar(scalar) => assert!(matches!(scalar.value, ScalarValue::String(_))),
                    other => panic!("expected scalar, got {other:?}"),
                }
            }
        }
        other => panic!("expected mapping, got {other:?}"),
    }
}

#[test]
fn parses_boolean_1_2() {
    let opts = ParserOptions { yaml_version: Some(YamlVersion::Version12), ..Default::default() };
    let doc = parse("flag: true\n", &opts).unwrap();
    assert_eq!(doc.documents.len(), 1);
}

#[test]
fn parses_sexagesimal_int_1_1() {
    let opts = ParserOptions { yaml_version: Some(YamlVersion::Version11), ..Default::default() };
    let doc = parse("value: 1:20:30\n", &opts).unwrap();
    match root_kind(&doc) {
        NodeKind::Mapping(entries) => match &doc.node(entries[0].1).unwrap().kind {
            NodeKind::Scalar(scalar) => assert_eq!(scalar.value, ScalarValue::Int(4830)),
            other => panic!("expected scalar, got {other:?}"),
        },
        other => panic!("expected mapping, got {other:?}"),
    }
}

#[test]
fn rejects_duplicate_anchor() {
    let result = parse("a: &x 1\nb: &x 2\n", &ParserOptions::default());
    assert!(result.is_err());
}

#[test]
fn rejects_unknown_alias() {
    let result = parse("a: *x\n", &ParserOptions::default());
    assert!(result.is_err());
}

#[test]
fn merge_key_expands_mapping() {
    let doc = parse_simple("base: &b\n  a: 1\n  b: 2\nchild:\n  <<: *b\n  b: 3\n  c: 4\n");
    match root_kind(&doc) {
        NodeKind::Mapping(entries) => {
            let child = &entries[1];
            match &doc.node(child.1).unwrap().kind {
                NodeKind::Mapping(child_entries) => {
                    let mut by_key = Vec::new();
                    for (k, v) in child_entries {
                        let key = match &doc.node(*k).unwrap().kind {
                            NodeKind::Scalar(s) => s.raw.clone(),
                            _ => panic!("expected scalar key"),
                        };
                        let value = match &doc.node(*v).unwrap().kind {
                            NodeKind::Scalar(s) => s.value.clone(),
                            _ => panic!("expected scalar value"),
                        };
                        by_key.push((key, value));
                    }
                    assert!(by_key.contains(&("b".to_string(), ScalarValue::Int(3))));
                    assert!(by_key.contains(&("a".to_string(), ScalarValue::Int(1))));
                    assert!(by_key.contains(&("c".to_string(), ScalarValue::Int(4))));
                    assert!(!by_key.iter().any(|(k, _)| k == "<<"));
                }
                other => panic!("expected mapping, got {other:?}"),
            }
        }
        other => panic!("expected mapping, got {other:?}"),
    }
}

#[test]
fn parser_strict_version_rejects_a_1_1_vs_1_2_ambiguous_scalar() {
    let options = ParserOptions { strict_version: true, ..ParserOptions::default() };
    let err = parse("a: yes\n", &options).unwrap_err();
    assert_eq!(err.kind, ErrorKind::AmbiguousVersion);
}

#[test]
fn parser_strict_version_accepts_an_unambiguous_scalar() {
    let options = ParserOptions { strict_version: true, ..ParserOptions::default() };
    let doc = parse("a: true\nb: 42\nc: hello\n", &options).unwrap();
    assert_eq!(doc.documents.len(), 1);
}

#[test]
fn strict_version_is_inert_without_the_flag() {
    let doc = parse_simple("a: yes\n");
    match root_kind(&doc) {
        NodeKind::Mapping(entries) => {
            let value = &doc.node(entries[0].1).unwrap().kind;
            match value {
                NodeKind::Scalar(s) => assert_eq!(s.value, ScalarValue::String("yes".into())),
                other => panic!("expected scalar, got {other:?}"),
            }
        }
        other => panic!("expected mapping, got {other:?}"),
    }
}

#[test]
fn parser_strict_version_is_inert_when_a_version_is_pinned() {
    let options = ParserOptions {
        strict_version: true,
        yaml_version: Some(YamlVersion::Version11),
        ..ParserOptions::default()
    };
    let doc = parse("a: yes\n", &options).unwrap();
    match root_kind(&doc) {
        NodeKind::Mapping(entries) => match &doc.node(entries[0].1).unwrap().kind {
            NodeKind::Scalar(s) => assert_eq!(s.value, ScalarValue::Bool(true)),
            other => panic!("expected scalar, got {other:?}"),
        },
        other => panic!("expected mapping, got {other:?}"),
    }
}

#[test]
fn parser_strict_version_is_inert_when_a_yaml_directive_pins_the_version() {
    let options = ParserOptions { strict_version: true, ..ParserOptions::default() };
    let doc = parse("%YAML 1.1\n---\na: yes\n", &options).unwrap();
    match root_kind(&doc) {
        NodeKind::Mapping(entries) => match &doc.node(entries[0].1).unwrap().kind {
            NodeKind::Scalar(s) => assert_eq!(s.value, ScalarValue::Bool(true)),
            other => panic!("expected scalar, got {other:?}"),
        },
        other => panic!("expected mapping, got {other:?}"),
    }
}

#[test]
fn every_reference_points_to_an_earlier_node() {
    let doc = parse_simple("base: &b {x: [1, 2]}\nother:\n  - *b\n  - <<: *b\n    y: 3\n");
    for (k, node) in doc.nodes.iter().enumerate() {
        assert_eq!(node.id.get() as usize, k);
        match &node.kind {
            NodeKind::Mapping(entries) => {
                for (a, b) in entries {
                    assert!((a.get() as usize) < k && (b.get() as usize) < k);
                }
            }
            NodeKind::Sequence(items) => assert!(items.iter().all(|i| (i.get() as usize) < k)),
            NodeKind::Alias(t) => assert!((t.get() as usize) < k),
            NodeKind::Scalar(_) => {}
        }
    }
}

#[test]
fn empty_source_is_one_null_document() {
    let doc = parse_simple("");
    assert_eq!(doc.documents.len(), 1);
    match root_kind(&doc) {
        NodeKind::Scalar(s) => assert_eq!(s.value, ScalarValue::Null),
        other => panic!("expected scalar, got {other:?}"),
    }
}

#[test]
fn yaml_directive_selects_the_version() {
    let doc = parse_simple("%YAML 1.1\n---\na: 0755\n");
    assert_eq!(doc.version(), YamlVersion::Version11);
    match root_kind(&doc) {
        NodeKind::Mapping(entries) => match &doc.node(entries[0].1).unwrap().kind {
            NodeKind::Scalar(s) => assert_eq!(s.value, ScalarValue::Int(493)),
            other => panic!("expected scalar, got {other:?}"),
        },
        other => panic!("expected mapping, got {other:?}"),
    }
    assert!(parse("%YAML 2.0\n---\na: 1\n", &ParserOptions::default()).is_err());
}

#[test]
fn comments_become_trivia_of_the_next_node() {
    let doc = parse_simple("# heading\na: 1\n");
    assert!(doc.nodes.iter().any(|n| !n.trivia.is_empty()));
}

#[test]
fn sexagesimal_floats_under_1_1() {
    let opts = ParserOptions { yaml_version: Some(YamlVersion::Version11), ..Default::default() };
    let doc = parse("value: 1:30.5\n", &opts).unwrap();
    match root_kind(&doc) {
        NodeKind::Mapping(entries) => match &doc.node(entries[0].1).unwrap().kind {
            NodeKind::Scalar(s) => assert_eq!(s.value, ScalarValue::Float("1:30.5".to_string())),
            other => panic!("expected scalar, got {other:?}"),
        },
        other => panic!("expected mapping, got {other:?}"),
    }
}

#[test]
fn node_spans_are_character_ranges_with_their_start_position() {
    let source = "héllo: wörld\nlist:\n  - [α, β]\n  - {k: ü}\n";
    let doc = parse(source, &ParserOptions::default()).unwrap();
    for node in &doc.nodes {
        let span = node.span.expect("every parsed node has a span");
        assert!(span.start <= span.end);
        assert!(source.is_char_boundary(span.start));
        assert!(source.is_char_boundary(span.end));
        let before = &source[..span.start];
        let line = before.matches('\n').count() + 1;
        let line_start = before.rfind('\n').map_or(0, |i| i + 1);
        assert_eq!(span.line, line);
        assert_eq!(span.column, span.start - line_start + 1);
    }
    let value = doc.nodes.iter().find(|n| n.span.map(|s| &source[s.start..s.end]) == Some("wörld")).unwrap();
    assert_eq!(value.span.unwrap().column, 9);
}

#[test]
fn values_by_their_first_token() {
    let options = ParserOptions::default();
    let err = parse("*missing\n", &options).unwrap_err();
    assert_eq!(err.kind, ErrorKind::UnknownAnchor);
    let err = parse("a: &x 1\nb: &x 2\n", &options).unwrap_err();
    assert_eq!(err.kind, ErrorKind::InvalidAnchor);
    let err = parse("]\n", &options).unwrap_err();
    assert_eq!(err.kind, ErrorKind::UnexpectedCharacter);
    let doc = parse("# note\n\nplain text\n", &options).unwrap();
    let root = doc.root().unwrap();
    match &doc.node(root).unwrap().kind {
        NodeKind::Scalar(sc) => assert_eq!(sc.raw, "plain text"),
        other => panic!("{other:?}"),
    }
    let doc = parse("a: &x [1]\nb: *x\n", &options).unwrap();
    let root = doc.root().unwrap();
    match &doc.node(root).unwrap().kind {
        NodeKind::Mapping(entries) => match &doc.node(entries[1].1).unwrap().kind {
            NodeKind::Alias(target) => assert_eq!(*target, entries[0].1),
            other => panic!("{other:?}"),
        },
        other => panic!("{other:?}"),
    }
}
