use tpt_yaml::document::Document;
use tpt_yaml::node::ParserOptions;
use tpt_yaml::parser::{parse_with, SexagesimalFloats};
use tpt_yaml::schema::{IssueKind, ValidationSettings};
use tpt_yaml::schema_compile::{Number, NumberOrder, NumberSemantics, Schema};
use tpt_yaml::schema_validate::SchemaDocument;

/// Doubles for sexagesimal floats and numeric constraints.
struct Doubles;

impl SexagesimalFloats for Doubles {
    fn is_sexagesimal_float(&self, _text: &str) -> bool {
        false
    }
}

fn to_f64(n: &Number) -> f64 {
    match n {
        Number::Int(i) => *i as f64,
        Number::Float(t) => {
            let lower = t.to_ascii_lowercase();
            match lower.trim_start_matches(['+', '-']) {
                ".inf" => {
                    if lower.starts_with('-') {
                        f64::NEG_INFINITY
                    } else {
                        f64::INFINITY
                    }
                }
                ".nan" => f64::NAN,
                _ => t.parse::<f64>().unwrap_or(f64::NAN),
            }
        }
    }
}

impl NumberSemantics for Doubles {
    fn compare(&self, a: &Number, b: &Number) -> NumberOrder {
        let (x, y) = (to_f64(a), to_f64(b));
        if x < y {
            NumberOrder::Less
        } else if x > y {
            NumberOrder::Greater
        } else if x == y {
            NumberOrder::Equal
        } else {
            NumberOrder::Unordered
        }
    }

    fn misses_multiple(&self, value: &Number, step: &Number) -> bool {
        let (v, s) = (to_f64(value), to_f64(step));
        s != 0.0 && (v / s).fract() != 0.0
    }

    fn display(&self, n: &Number) -> String {
        to_f64(n).to_string()
    }
}

fn parse(source: &str) -> Document {
    parse_with(source, &ParserOptions::default(), &Doubles).unwrap()
}

fn schema(source: &str) -> SchemaDocument {
    SchemaDocument::from_yaml_str(source, &Doubles).unwrap()
}

const SCHEMA: &str = r##"
type: object
required: [name, ports]
properties:
  name:
    type: string
    pattern: '^[A-Za-z]+$'
  ports:
    type: array
    minItems: 1
    maxItems: 4
    items:
      type: number
      minimum: 1
      maximum: 65535
  mode:
    enum: [strict, lenient]
  flags:
    $ref: "#/$defs/flags"
$defs:
  flags:
    type: object
    additionalProperties: false
    properties:
      verbose:
        type: boolean
"##;

#[test]
fn loads_a_schema_and_validates_a_matching_document() {
    let schema = schema(SCHEMA);
    let doc = parse("name: alpha\nports:\n  - 80\n  - 443\nmode: strict\nflags:\n  verbose: true\n");
    let report = schema.validate(&doc, doc.root().unwrap(), &Doubles);
    assert!(report.is_valid(), "issues: {:?}", report.issues());
}

#[test]
fn reports_type_required_and_enum_issues_with_spans() {
    let schema = schema(SCHEMA);
    let doc = parse("name: 42\nports: []\nmode: turbo\nflags:\n  verbose: yes\n  extra: 1\n");
    let report = schema.validate(&doc, doc.root().unwrap(), &Doubles);
    assert!(!report.is_valid());
    let kinds: Vec<_> = report.issues().iter().map(|i| i.kind).collect();
    assert!(kinds.contains(&IssueKind::TypeMismatch), "{kinds:?}");
    assert!(kinds.contains(&IssueKind::MinItems), "{kinds:?}");
    assert!(kinds.contains(&IssueKind::EnumMismatch), "{kinds:?}");
    assert!(kinds.contains(&IssueKind::AdditionalProperty), "{kinds:?}");
    assert!(report.issues().iter().all(|i| i.span.is_some()), "{kinds:?}");
}

#[test]
fn one_of_any_of_all_of_and_not() {
    let schema = schema("oneOf:\n  - type: string\n  - type: number\n");
    let doc = parse("just a string");
    assert!(schema.validate(&doc, doc.root().unwrap(), &Doubles).is_valid());
    let doc = parse("5\n");
    assert!(schema.validate(&doc, doc.root().unwrap(), &Doubles).is_valid());
    let doc = parse("true\n");
    let report = schema.validate(&doc, doc.root().unwrap(), &Doubles);
    assert_eq!(report.issues()[0].kind, IssueKind::OneOfMismatch);
}

#[test]
fn settings_gate_which_checks_run() {
    let schema = schema("type: object\nrequired: [a]\nproperties:\n  a:\n    type: string\n");
    let doc = parse("a: 1\nextra: 2\n");
    let root = doc.root().unwrap();
    let report = schema.validate_with(&doc, root, &ValidationSettings::new().only(&["enums"]), &Doubles);
    assert!(report.is_valid());
}

#[test]
fn validation_is_deterministic() {
    let schema = schema(SCHEMA);
    let doc = parse("name: 42\nports: []\nmode: turbo\n");
    let root = doc.root().unwrap();
    let first = schema.validate(&doc, root, &Doubles);
    let second = schema.validate(&doc, root, &Doubles);
    assert_eq!(first, second);
}

#[test]
fn numeric_bounds_and_steps() {
    let schema = schema("type: number\nminimum: 1\nexclusiveMaximum: 10\nmultipleOf: 0.5\n");
    let ok = parse("2.5\n");
    assert!(schema.validate(&ok, ok.root().unwrap(), &Doubles).is_valid());
    let low = parse("0\n");
    let report = schema.validate(&low, low.root().unwrap(), &Doubles);
    assert_eq!(report.issues()[0].kind, IssueKind::Minimum);
    assert_eq!(report.issues()[0].message, "0 below 1");
    let high = parse("10\n");
    let kinds: Vec<_> = schema.validate(&high, high.root().unwrap(), &Doubles).issues().iter().map(|i| i.kind).collect();
    assert_eq!(kinds, vec![IssueKind::ExclusiveMaximum]);
    let odd = parse("1.3\n");
    let kinds: Vec<_> = schema.validate(&odd, odd.root().unwrap(), &Doubles).issues().iter().map(|i| i.kind).collect();
    assert_eq!(kinds, vec![IssueKind::MultipleOf]);
}

#[test]
fn issues_are_sorted_by_path_then_kind() {
    let schema = schema("type: object\nproperties:\n  b:\n    type: string\n  a:\n    type: string\nrequired: [c]\n");
    let doc = parse("b: 1\na: 2\n");
    let report = schema.validate(&doc, doc.root().unwrap(), &Doubles);
    let paths: Vec<&str> = report.issues().iter().map(|i| i.path.as_str()).collect();
    assert_eq!(paths, vec!["", "a", "b"]);
    assert_eq!(report.issues()[0].kind, IssueKind::RequiredMissing);
    assert_eq!(report.issues()[0].message, "required property `c` missing");
}

#[test]
fn array_items_get_indexed_paths_and_duplicates_are_found() {
    let schema = schema("type: array\nuniqueItems: 'true'\nitems:\n  type: string\n");
    let doc = parse("- x\n- 1\n- x\n");
    let report = schema.validate(&doc, doc.root().unwrap(), &Doubles);
    let found: Vec<(String, IssueKind)> = report.issues().iter().map(|i| (i.path.clone(), i.kind)).collect();
    assert_eq!(
        found,
        vec![("".to_string(), IssueKind::UniqueItems), ("1".to_string(), IssueKind::TypeMismatch)]
    );
}

#[test]
fn depth_limit_stops_self_reference() {
    let schema = schema("$ref: '#/$defs/node'\n$defs:\n  node:\n    $ref: '#/$defs/node'\n");
    let doc = parse("1\n");
    let report = schema.validate_with(&doc, doc.root().unwrap(), &ValidationSettings::new().with_max_depth(3), &Doubles);
    assert_eq!(report.issues().len(), 1);
    assert_eq!(report.issues()[0].kind, IssueKind::DepthExceeded);
}

#[test]
fn rejects_an_unsupported_schema() {
    assert!(SchemaDocument::from_yaml_str("- not a mapping\n", &Doubles).is_err());
    assert!(SchemaDocument::from_yaml_str("type: wat\n", &Doubles).is_err());
    assert!(SchemaDocument::from_yaml_str("$ref: 'http://example.com'\n", &Doubles).is_err());
    match SchemaDocument::from_yaml_str("type: string\npattern: '*a'\n", &Doubles) {
        Err(tpt_yaml::schema::Error::InvalidPattern(p)) => assert_eq!(p, "*a"),
        other => panic!("{other:?}"),
    }
    let compiled = SchemaDocument::from_yaml_str("type: boolean\n", &Doubles).unwrap();
    assert!(matches!(compiled.root, Schema::Type(_)));
}

#[test]
fn one_of_with_two_matching_branches_is_ambiguous() {
    let s = schema("oneOf:\n  - type: number\n  - type: number\n");
    let d = parse("5\n");
    let report = s.validate(&d, d.root().unwrap(), &Doubles);
    assert_eq!(report.issues().len(), 1);
    assert_eq!(report.issues()[0].kind, IssueKind::OneOfAmbiguous);
    assert_eq!(report.issues()[0].path, "");
    let d = parse("true\n");
    let report = s.validate(&d, d.root().unwrap(), &Doubles);
    assert_eq!(report.issues()[0].kind, IssueKind::OneOfMismatch);
}

#[test]
fn not_and_any_of_over_direct_schemas() {
    let s = schema("not:\n  type: string\n");
    let d = parse("text\n");
    assert_eq!(s.validate(&d, d.root().unwrap(), &Doubles).issues()[0].kind, IssueKind::NotMatched);
    let d = parse("5\n");
    assert!(s.validate(&d, d.root().unwrap(), &Doubles).is_valid());
    let s = schema("anyOf:\n  - type: string\n  - type: boolean\n");
    let d = parse("5\n");
    assert_eq!(s.validate(&d, d.root().unwrap(), &Doubles).issues()[0].kind, IssueKind::AnyOfMismatch);
}

#[test]
fn boolean_unique_items_enables_the_check() {
    let schema = schema("type: array\nuniqueItems: true\n");
    let doc = parse("- a\n- a\n");
    let report = schema.validate(&doc, doc.root().unwrap(), &Doubles);
    assert_eq!(report.issues().len(), 1);
    assert_eq!(report.issues()[0].kind, IssueKind::UniqueItems);
    let off = SchemaDocument::from_yaml_str("type: array\nuniqueItems: false\n", &Doubles).unwrap();
    assert!(off.validate(&doc, doc.root().unwrap(), &Doubles).is_valid());
}

#[test]
fn refs_must_name_a_definition() {
    assert!(matches!(
        SchemaDocument::from_yaml_str("type: object\nproperties:\n  a:\n    $ref: '#/$defs/missing'\n", &Doubles),
        Err(tpt_yaml::schema::Error::InvalidSchema(_))
    ));
    let s = schema("$defs:\n  name:\n    type: string\ntype: object\nproperties:\n  a:\n    $ref: '#/$defs/name'\n");
    let d = parse("a: 1\n");
    let report = s.validate(&d, d.root().unwrap(), &Doubles);
    assert_eq!(report.issues().len(), 1);
    assert_eq!(report.issues()[0].kind, IssueKind::TypeMismatch);
    assert_eq!(report.issues()[0].path, "a");
}

fn invalid_message(source: &str) -> String {
    match SchemaDocument::from_yaml_str(source, &Doubles) {
        Err(tpt_yaml::schema::Error::InvalidSchema(m)) => m,
        other => panic!("{other:?}"),
    }
}

#[test]
fn form_keywords_must_have_their_shapes() {
    assert_eq!(invalid_message("enum: a\n"), "enum must be a sequence");
    assert_eq!(invalid_message("enum:\n  - a\n  - [b]\n"), "enum values must be scalars");
    assert_eq!(invalid_message("const: [a]\n"), "const must be a scalar");
    assert_eq!(invalid_message("oneOf: a\n"), "oneOf must be a sequence");
    assert_eq!(invalid_message("anyOf: {a: b}\n"), "anyOf must be a sequence");
    assert_eq!(invalid_message("allOf: 3\n"), "allOf must be a sequence");
    assert_eq!(invalid_message("oneOf:\n  - a\n"), "schema must be a mapping");
    assert_eq!(invalid_message(""), "schema root must be a mapping");
}

#[test]
fn form_keywords_compile_in_order() {
    let s = schema("enum: [a, 1, null]\nconst: b\n");
    match &s.root {
        Schema::Enum(values) => assert_eq!(values.len(), 3),
        other => panic!("{other:?}"),
    }
    let s = schema("anyOf:\n  - type: string\noneOf:\n  - type: number\n  - type: boolean\n");
    match &s.root {
        Schema::OneOf(branches) => {
            assert_eq!(branches.len(), 2);
            assert!(matches!(branches[0], Schema::Number { .. }));
        }
        other => panic!("{other:?}"),
    }
    let s = schema("not:\n  type: 'null'\n");
    assert!(matches!(s.root, Schema::Not(_)));
    let s = schema("title: anything\n");
    assert!(matches!(s.root, Schema::Constant(true)));
}

#[test]
fn object_array_ref_and_all_of_outcomes() {
    let s = schema("type: object\nrequired: [a]\n");
    let d = parse("5\n");
    let report = s.validate(&d, d.root().unwrap(), &Doubles);
    assert_eq!(report.issues().len(), 1);
    assert_eq!(report.issues()[0].kind, IssueKind::TypeMismatch);
    let d = parse("b: 1\n");
    let report = s.validate(&d, d.root().unwrap(), &Doubles);
    assert_eq!(report.issues().len(), 1);
    assert_eq!(report.issues()[0].kind, IssueKind::RequiredMissing);
    let s = schema("type: array\nminItems: 2\n");
    let d = parse("- 1\n");
    let report = s.validate(&d, d.root().unwrap(), &Doubles);
    assert_eq!(report.issues()[0].kind, IssueKind::MinItems);
    let s = schema("allOf:\n  - type: string\n  - type: string\n    minLength: 3\n");
    let d = parse("ab\n");
    let report = s.validate(&d, d.root().unwrap(), &Doubles);
    assert_eq!(report.issues().len(), 1);
    assert_eq!(report.issues()[0].kind, IssueKind::MinLength);
    let doc = SchemaDocument { root: Schema::Ref("#/$defs/none".to_string()), defs: Vec::new() };
    let report = doc.validate(&d, d.root().unwrap(), &Doubles);
    assert_eq!(report.issues().len(), 1);
    assert_eq!(report.issues()[0].kind, IssueKind::RefUnresolved);
}
