use tpt_yaml::document::Document;
use tpt_yaml::hover::{diagnostics_from, find_node_at, hover, lsp_diagnostics, HoverKind};
use tpt_yaml::node::{NodeId, ParserOptions};
use tpt_yaml::parser::{parse_with, SexagesimalFloats};
use tpt_yaml::schema::{IssueKind, ValidationIssue};
use tpt_yaml::schema_compile::{Number, NumberOrder, NumberSemantics};
use tpt_yaml::schema_validate::SchemaDocument;
use tpt_yaml::span::Span;
use tpt_yaml::version::YamlVersion;

struct Doubles;

impl SexagesimalFloats for Doubles {
    fn is_sexagesimal_float(&self, _text: &str) -> bool {
        false
    }
}

fn to_f64(n: &Number) -> f64 {
    match n {
        Number::Int(i) => *i as f64,
        Number::Float(t) => t.parse::<f64>().unwrap_or(f64::NAN),
    }
}

impl NumberSemantics for Doubles {
    fn compare(&self, a: &Number, b: &Number) -> NumberOrder {
        let (x, y) = (to_f64(a), to_f64(b));
        if x < y {
            NumberOrder::Less
        } else if x > y {
            NumberOrder::Greater
        } else if x == y {
            NumberOrder::Equal
        } else {
            NumberOrder::Unordered
        }
    }

    fn misses_multiple(&self, value: &Number, step: &Number) -> bool {
        let (v, s) = (to_f64(value), to_f64(step));
        s != 0.0 && (v / s).fract() != 0.0
    }

    fn display(&self, n: &Number) -> String {
        to_f64(n).to_string()
    }
}

const SCHEMA: &str = r#"
type: object
required: [server, database]
properties:
  server:
    type: object
    required: [host, port]
    properties:
      host: {type: string}
      port: {type: integer, minimum: 1, maximum: 65535}
      tls:  {type: boolean}
  database:
    type: object
    required: [url]
    properties:
      url:             {type: string, format: uri}
      max_connections: {type: integer, minimum: 1}
  logging:
    type: object
    properties:
      level:  {type: string, enum: [debug, info, warn, error]}
      format: {type: string, enum: [text, json]}
"#;

const VALID: &str = "server:\n  host: localhost\n  port: 8080\n  tls: true\ndatabase:\n  url: postgres://db/myapp\n  max_connections: 25\nlogging:\n  level: info\n  format: json\n";

const INVALID: &str = "server:\n  host: 12345\n  port: 99999\ndatabase:\n  url: not-a-uri\nlogging:\n  level: VERBOSE\n";

fn parse(source: &str) -> Document {
    parse_with(source, &ParserOptions::default(), &Doubles).unwrap()
}

fn span_text<'a>(source: &'a str, span: Option<Span>) -> &'a str {
    let s = span.unwrap();
    &source[s.start..s.end]
}

#[test]
fn hover_finds_the_innermost_node_under_the_cursor() {
    let doc = parse(VALID);
    let server_key = hover(&doc, 0);
    assert_eq!(server_key.kind, HoverKind::String);
    assert_eq!(span_text(VALID, server_key.span), "server");
    let host_key = hover(&doc, 10);
    assert_eq!(host_key.kind, HoverKind::String);
    assert_eq!(span_text(VALID, host_key.span), "host");
    let host_value = hover(&doc, 16);
    assert_eq!(host_value.kind, HoverKind::String);
    assert_eq!(span_text(VALID, host_value.span), "localhost");
    let span = host_value.span.unwrap();
    assert_eq!((span.line, span.column), (2, 9));
    let database_key = hover(&doc, 51);
    assert_eq!(database_key.kind, HoverKind::String);
    assert_eq!(span_text(VALID, database_key.span), "database");
}

#[test]
fn hover_reports_scalar_types_and_collection_sizes() {
    let source = "n: 8080\nb: true\nz: ~\nf: 1.5\nl: [1, 2, 3]\n";
    let doc = parse(source);
    assert_eq!(hover(&doc, 3).kind, HoverKind::Integer);
    assert_eq!(hover(&doc, 11).kind, HoverKind::Boolean);
    assert_eq!(hover(&doc, 19).kind, HoverKind::Null);
    assert_eq!(hover(&doc, 24).kind, HoverKind::Float);
    assert_eq!(hover(&doc, 31).kind, HoverKind::Sequence(3));
    assert_eq!(hover(&doc, 32).kind, HoverKind::Integer);
    // Past the end of every span the root mapping itself is hovered.
    assert_eq!(hover(&doc, 1000).kind, HoverKind::Mapping(5));
}

#[test]
fn hover_over_an_alias_does_not_enter_its_target() {
    let source = "a: &x 1\nb: *x\n";
    let doc = parse(source);
    let info = hover(&doc, 11);
    match info.kind {
        HoverKind::Alias(target) => {
            let target_span = doc.span(target);
            assert_eq!(span_text(source, target_span), "1");
        }
        other => panic!("expected an alias, got {:?}", other),
    }
    assert_eq!(span_text(source, info.span), "*x");
}

#[test]
fn hover_on_a_document_without_root_is_empty() {
    let doc = Document::new(YamlVersion::Version12);
    let info = hover(&doc, 0);
    assert_eq!(info.kind, HoverKind::Empty);
    assert_eq!(info.node, None);
    assert_eq!(info.span, None);
}

#[test]
fn find_node_at_stays_at_a_node_whose_children_miss_the_cursor() {
    let doc = parse("k: v\n");
    let root = doc.root().unwrap();
    assert_eq!(find_node_at(&doc, root, 100), root);
    assert_eq!(find_node_at(&doc, NodeId(999), 0), NodeId(999));
}

#[test]
fn diagnostics_are_zero_based() {
    let issues = vec![
        ValidationIssue {
            path: "a.b".to_string(),
            kind: IssueKind::TypeMismatch,
            message: "expected string".to_string(),
            node: NodeId(0),
            span: Some(Span::new(4, 9, 3, 5)),
        },
        ValidationIssue {
            path: String::new(),
            kind: IssueKind::RequiredMissing,
            message: "missing".to_string(),
            node: NodeId(1),
            span: None,
        },
        ValidationIssue {
            path: "x".to_string(),
            kind: IssueKind::Minimum,
            message: "too small".to_string(),
            node: NodeId(2),
            span: Some(Span::new(0, 1, 0, 0)),
        },
    ];
    let diags = diagnostics_from(&issues);
    assert_eq!(diags.len(), 3);
    assert_eq!(diags[0].path, "a.b");
    assert_eq!(diags[0].message, "expected string");
    assert_eq!((diags[0].line, diags[0].column), (2, 4));
    assert_eq!((diags[1].line, diags[1].column), (0, 0));
    assert_eq!((diags[2].line, diags[2].column), (0, 0));
}

#[test]
fn lsp_diagnostics_of_the_example_documents() {
    let schema = SchemaDocument::from_yaml_str(SCHEMA, &Doubles).unwrap();
    let valid = parse(VALID);
    assert!(lsp_diagnostics(&valid, &schema, &Doubles).is_empty());
    let invalid = parse(INVALID);
    let diags = lsp_diagnostics(&invalid, &schema, &Doubles);
    assert!(!diags.is_empty());
    let host = diags.iter().find(|d| d.path == "server.host").expect("host is not a string");
    assert_eq!((host.line, host.column), (1, 8));
    let port = diags.iter().find(|d| d.path == "server.port").expect("port is above the maximum");
    assert_eq!((port.line, port.column), (2, 8));
    // A schema with `type` is compiled as that type alone, so `level`'s enum is not checked.
    assert_eq!(diags.len(), 2);
    assert!(lsp_diagnostics(&Document::new(YamlVersion::Version12), &schema, &Doubles).is_empty());
}
