use tpt_yaml::document::{Document, NodeKind};
use tpt_yaml::edit::{Error, Path};
use tpt_yaml::edit_doc::{EditValue, EditableDocument};
use tpt_yaml::edit_path::resolve_path;
use tpt_yaml::node::{ParserOptions, ScalarValue};
use tpt_yaml::parser::{parse_with, SexagesimalFloats};
use tpt_yaml::pretty::FloatDisplay;

/// Floats print as doubles do; no sexagesimal floats.
struct Doubles;

impl SexagesimalFloats for Doubles {
    fn is_sexagesimal_float(&self, _text: &str) -> bool {
        false
    }
}

impl FloatDisplay for Doubles {
    fn display(&self, text: &str) -> String {
        text.parse::<f64>().map(|f| f.to_string()).unwrap_or_else(|_| text.to_string())
    }
}

fn parse(source: &str) -> Document {
    parse_with(source, &ParserOptions::default(), &Doubles).unwrap()
}

fn scalar_at(doc: &Document, path: &Path) -> Option<ScalarValue> {
    let root = doc.root()?;
    let id = resolve_path(doc, root, path).ok()?;
    match &doc.node(id)?.kind {
        NodeKind::Scalar(s) => Some(s.value.clone()),
        _ => None,
    }
}

fn int_value(i: i64) -> EditValue {
    EditValue::Scalar(ScalarValue::Int(i))
}

#[test]
fn lib_placeholder() {
    assert!(EditableDocument::parse("ok: true", &Doubles).is_ok());
}

#[test]
fn unedited_document_renders_byte_identical() {
    let source = "a: 1\nb: 2 # comment\n";
    let doc = EditableDocument::parse(source, &Doubles).unwrap();
    assert_eq!(doc.render(), source);
}

#[test]
fn set_replaces_a_scalar_value_and_reparses() {
    let source = "a: 1\nb: 2\n";
    let mut doc = EditableDocument::parse(source, &Doubles).unwrap();
    doc.set(&Path::root().field("b"), EditValue::Scalar(ScalarValue::Int(99))).unwrap();
    let rendered = doc.render();

    let reparsed = parse(&rendered);
    let root = reparsed.root().unwrap();
    let b = resolve_path(&reparsed, root, &Path::root().field("b")).unwrap();
    match &reparsed.node(b).unwrap().kind {
        NodeKind::Scalar(s) => assert_eq!(s.value, ScalarValue::Int(99)),
        other => panic!("expected scalar, got {other:?}"),
    }
    // untouched sibling stays byte-identical
    assert!(rendered.contains("a: 1\n"));
}

#[test]
fn set_upserts_a_missing_key() {
    let mut doc = EditableDocument::parse("a: 1\n", &Doubles).unwrap();
    doc.set(&Path::root().field("c"), EditValue::Scalar(ScalarValue::Int(3))).unwrap();
    let rendered = doc.render();
    let reparsed = parse(&rendered);
    let root = reparsed.root().unwrap();
    let c = resolve_path(&reparsed, root, &Path::root().field("c")).unwrap();
    match &reparsed.node(c).unwrap().kind {
        NodeKind::Scalar(s) => assert_eq!(s.value, ScalarValue::Int(3)),
        other => panic!("expected scalar, got {other:?}"),
    }
}

#[test]
fn remove_deletes_a_mapping_entry() {
    let mut doc = EditableDocument::parse("a: 1\nb: 2\n", &Doubles).unwrap();
    doc.remove(&Path::root().field("b")).unwrap();
    let rendered = doc.render();
    let reparsed = parse(&rendered);
    let root = reparsed.root().unwrap();
    assert!(resolve_path(&reparsed, root, &Path::root().field("b")).is_err());
    assert!(resolve_path(&reparsed, root, &Path::root().field("a")).is_ok());
}

#[test]
fn push_appends_to_a_sequence() {
    let mut doc = EditableDocument::parse("items:\n  - 1\n  - 2\n", &Doubles).unwrap();
    doc.push(&Path::root().field("items"), EditValue::Scalar(ScalarValue::Int(3))).unwrap();
    let rendered = doc.render();
    let reparsed = parse(&rendered);
    let root = reparsed.root().unwrap();
    let items = resolve_path(&reparsed, root, &Path::root().field("items")).unwrap();
    match &reparsed.node(items).unwrap().kind {
        NodeKind::Sequence(seq) => assert_eq!(seq.len(), 3),
        other => panic!("expected sequence, got {other:?}"),
    }
}

#[test]
fn set_replaces_the_whole_document() {
    let mut doc = EditableDocument::parse("a: 1\n", &Doubles).unwrap();
    doc.set(&Path::root(), EditValue::Scalar(ScalarValue::String("hello".to_string()))).unwrap();
    let rendered = doc.render();
    let reparsed = parse(&rendered);
    match &reparsed.node(reparsed.root().unwrap()).unwrap().kind {
        NodeKind::Scalar(s) => assert_eq!(s.value, ScalarValue::String("hello".to_string())),
        other => panic!("expected scalar, got {other:?}"),
    }
}

#[test]
fn an_edit_renders_exactly_and_keeps_untouched_lines() {
    let mut doc = EditableDocument::parse("a:   'one'\nb: 2\n", &Doubles).unwrap();
    doc.set(&Path::root().field("b"), int_value(99)).unwrap();
    assert_eq!(doc.render(), "a: 'one'\nb: 99\n");
}

#[test]
fn a_new_string_is_written_double_quoted() {
    let mut doc = EditableDocument::parse("a: 1\n", &Doubles).unwrap();
    doc.set(&Path::root().field("a"), EditValue::Scalar(ScalarValue::String("x y".to_string()))).unwrap();
    assert_eq!(doc.render(), "a: \"x y\"\n");
}

#[test]
fn a_clean_block_under_an_edited_parent_keeps_its_shape() {
    let source = "outer:\n  keep:\n    - 1\n    - 2\n  change: 3\n";
    let mut doc = EditableDocument::parse(source, &Doubles).unwrap();
    doc.set(&Path::root().field("outer").field("change"), int_value(4)).unwrap();
    let rendered = doc.render();
    assert_eq!(rendered, "outer:\n  keep:\n    - 1\n    - 2\n  change: 4\n");
    let reparsed = parse(&rendered);
    assert_eq!(
        scalar_at(&reparsed, &Path::root().field("outer").field("keep").index(1)),
        Some(ScalarValue::Int(2))
    );
}

#[test]
fn nested_values_are_built_in_block_style() {
    let mut doc = EditableDocument::parse("a: 1\n", &Doubles).unwrap();
    let value = EditValue::Mapping(vec![
        ("x".to_string(), EditValue::Sequence(vec![int_value(1), int_value(2)])),
        ("y".to_string(), EditValue::Mapping(vec![])),
    ]);
    doc.set(&Path::root().field("b"), value).unwrap();
    let rendered = doc.render();
    assert_eq!(rendered, "a: 1\nb:\n  x:\n    - 1\n    - 2\n  y: {}\n");
    let reparsed = parse(&rendered);
    assert_eq!(scalar_at(&reparsed, &Path::root().field("b").field("x").index(1)), Some(ScalarValue::Int(2)));
}

#[test]
fn set_writes_into_a_sequence_index() {
    let mut doc = EditableDocument::parse("s: [1, 2, 3]\n", &Doubles).unwrap();
    doc.set(&Path::root().field("s").index(1), int_value(20)).unwrap();
    let reparsed = parse(&doc.render());
    assert_eq!(scalar_at(&reparsed, &Path::root().field("s").index(1)), Some(ScalarValue::Int(20)));
    assert_eq!(scalar_at(&reparsed, &Path::root().field("s").index(2)), Some(ScalarValue::Int(3)));
}

#[test]
fn edits_report_their_errors() {
    let mut doc = EditableDocument::parse("a: 1\ns: [1]\n", &Doubles).unwrap();
    assert_eq!(doc.set(&Path::root().field("s").index(5), int_value(0)), Err(Error::IndexOutOfBounds));
    assert_eq!(doc.set(&Path::root().field("a").field("x"), int_value(0)), Err(Error::TypeMismatch));
    assert_eq!(doc.set(&Path::root().field("zz").field("x"), int_value(0)), Err(Error::KeyNotFound));
    assert_eq!(doc.remove(&Path::root()), Err(Error::EmptyPath));
    assert_eq!(doc.remove(&Path::root().field("zz")), Err(Error::KeyNotFound));
    assert_eq!(doc.remove(&Path::root().field("s").index(3)), Err(Error::KeyNotFound));
    assert_eq!(doc.push(&Path::root().field("a"), int_value(0)), Err(Error::TypeMismatch));
    assert_eq!(doc.push(&Path::root().field("zz"), int_value(0)), Err(Error::KeyNotFound));
    // failed edits leave the rendering as it was
    assert_eq!(doc.render(), "a: 1\ns: [1]\n");
}

#[test]
fn a_parse_error_is_reported() {
    assert!(matches!(EditableDocument::parse("a: [1\n", &Doubles), Err(Error::Parse(_))));
}

#[test]
fn removing_a_sequence_item_keeps_the_others() {
    let mut doc = EditableDocument::parse("seq:\n  - 10\n  - 20\n  - 30\n", &Doubles).unwrap();
    doc.remove(&Path::root().field("seq").index(0)).unwrap();
    assert_eq!(doc.render(), "seq:\n  - 20\n  - 30\n");
}

#[test]
fn a_sequence_of_edits_matches_the_plain_model() {
    let source = "a: 1\nb: 2\nseq:\n  - 10\n  - 20\n  - 30\n";
    let mut doc = EditableDocument::parse(source, &Doubles).unwrap();
    doc.set(&Path::root().field("a"), EditValue::Scalar(ScalarValue::String("hi".to_string()))).unwrap();
    doc.push(&Path::root().field("seq"), int_value(40)).unwrap();
    doc.remove(&Path::root().field("b")).unwrap();
    doc.remove(&Path::root().field("seq").index(1)).unwrap();
    let reparsed = parse(&doc.render());
    assert_eq!(scalar_at(&reparsed, &Path::root().field("a")), Some(ScalarValue::String("hi".to_string())));
    assert_eq!(scalar_at(&reparsed, &Path::root().field("b")), None);
    assert_eq!(scalar_at(&reparsed, &Path::root().field("seq").index(0)), Some(ScalarValue::Int(10)));
    assert_eq!(scalar_at(&reparsed, &Path::root().field("seq").index(1)), Some(ScalarValue::Int(30)));
    assert_eq!(scalar_at(&reparsed, &Path::root().field("seq").index(2)), Some(ScalarValue::Int(40)));
}

#[test]
fn a_float_prints_as_its_display_says() {
    let mut doc = EditableDocument::parse("a: 1\n", &Doubles).unwrap();
    doc.set(&Path::root().field("a"), EditValue::Scalar(ScalarValue::Float("2.50".to_string()))).unwrap();
    assert_eq!(doc.render(), "a: 2.5\n");
}
