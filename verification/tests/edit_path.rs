use tpt_yaml::document::NodeKind;
use tpt_yaml::edit::{Error, Key, Path};
use tpt_yaml::edit_path::{child_index, resolve_path, resolve_trail};
use tpt_yaml::node::{ParserOptions, ScalarValue};
use tpt_yaml::parser::{parse_with, SexagesimalFloats};

struct NoSexagesimal;

impl SexagesimalFloats for NoSexagesimal {
    fn is_sexagesimal_float(&self, _text: &str) -> bool {
        false
    }
}

fn scalar_text(doc: &tpt_yaml::document::Document, id: tpt_yaml::node::NodeId) -> String {
    match &doc.node(id).unwrap().kind {
        NodeKind::Scalar(s) => match &s.value {
            ScalarValue::String(v) => v.clone(),
            other => format!("{other:?}"),
        },
        other => format!("{other:?}"),
    }
}

#[test]
fn resolves_fields_and_indices() {
    let doc = parse_with("a:\n  b: [x, y]\n  c: z\n", &ParserOptions::default(), &NoSexagesimal).unwrap();
    let root = doc.root().unwrap();
    let target = resolve_path(&doc, root, &Path::root().field("a").field("b").index(1)).unwrap();
    assert_eq!(scalar_text(&doc, target), "y");
    let trail = resolve_trail(&doc, root, &Path::root().field("a").field("c")).unwrap();
    assert_eq!(trail.len(), 3);
    assert_eq!(trail[0], root);
    assert_eq!(scalar_text(&doc, trail[2]), "z");
    assert_eq!(resolve_path(&doc, root, &Path::root()).unwrap(), root);
}

#[test]
fn reports_each_kind_of_miss() {
    let doc = parse_with("a: [1]\n", &ParserOptions::default(), &NoSexagesimal).unwrap();
    let root = doc.root().unwrap();
    assert_eq!(resolve_path(&doc, root, &Path::root().field("b")), Err(Error::KeyNotFound));
    assert_eq!(resolve_path(&doc, root, &Path::root().field("a").index(3)), Err(Error::IndexOutOfBounds));
    assert_eq!(resolve_path(&doc, root, &Path::root().index(0)), Err(Error::TypeMismatch));
    assert_eq!(resolve_trail(&doc, root, &Path::root().field("a").field("x")), Err(Error::TypeMismatch));
}

#[test]
fn child_index_finds_the_first_matching_key() {
    let doc = parse_with("k: 1\nj: 2\n", &ParserOptions::default(), &NoSexagesimal).unwrap();
    let root = doc.root().unwrap();
    assert_eq!(child_index(&doc, root, &Key::Field("j".to_string())), Ok(Some(1)));
    assert_eq!(child_index(&doc, root, &Key::Field("q".to_string())), Ok(None));
    assert_eq!(child_index(&doc, root, &Key::Index(0)), Err(Error::TypeMismatch));
}
