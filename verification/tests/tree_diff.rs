use tpt_yaml::document::Document;
use tpt_yaml::node::ParserOptions;
use tpt_yaml::parser::{parse_with, SexagesimalFloats};
use tpt_yaml::pretty::{float_table, FloatDisplay};
use tpt_yaml::tree_diff::diff_nodes;

struct Doubles;

impl SexagesimalFloats for Doubles {
    fn is_sexagesimal_float(&self, _text: &str) -> bool {
        false
    }
}

impl FloatDisplay for Doubles {
    fn display(&self, text: &str) -> String {
        let lower = text.to_ascii_lowercase();
        match lower.trim_start_matches(['+', '-']) {
            ".nan" => "NaN".to_string(),
            ".inf" => {
                if lower.starts_with('-') {
                    "-inf".to_string()
                } else {
                    "inf".to_string()
                }
            }
            _ => text.parse::<f64>().map(|f| f.to_string()).unwrap_or_else(|_| text.to_string()),
        }
    }
}

fn parse(source: &str) -> Document {
    parse_with(source, &ParserOptions::default(), &Doubles).unwrap()
}

fn diff(a: &str, b: &str) -> Vec<String> {
    let doc_a = parse(a);
    let doc_b = parse(b);
    let ta = float_table(&doc_a, &Doubles);
    let tb = float_table(&doc_b, &Doubles);
    let mut path = Vec::new();
    let mut out = Vec::new();
    diff_nodes(&doc_a, doc_a.root().unwrap(), &doc_b, doc_b.root().unwrap(), &mut path, &mut out, &ta, &tb);
    assert!(path.is_empty());
    out
}

#[test]
fn identical_documents_have_no_differences() {
    assert!(diff("a: 1\nb: [x, y]\nc: {d: e}\n", "a: 1\nb: [x, y]\nc: {d: e}\n").is_empty());
}

#[test]
fn reports_changed_removed_and_added_entries() {
    assert_eq!(
        diff("a: 1\nb: 2\nc: 3\n", "a: 1\nb: 20\nd: 4\n"),
        vec!["~ b: 2 -> 20".to_string(), "- c: 3".to_string(), "+ d: 4".to_string()]
    );
}

#[test]
fn reports_sequence_items_by_index() {
    assert_eq!(
        diff("s: [1, 2, 3]\n", "s: [1, 5]\n"),
        vec!["~ s.1: 2 -> 5".to_string(), "- s.2: 3".to_string()]
    );
    assert_eq!(diff("s: [1]\n", "s: [1, {a: b}]\n"), vec!["+ s.1: {mapping, 1 entries}".to_string()]);
}

#[test]
fn a_change_of_kind_is_described() {
    assert_eq!(diff("a: [1, 2]\n", "a: x\n"), vec!["~ a: [sequence, 2 items] -> x".to_string()]);
    assert_eq!(diff("x\n", "[1]\n"), vec!["~ <root>: x -> [sequence, 1 items]".to_string()]);
}

#[test]
fn floats_compare_as_doubles_and_nulls_show_as_null() {
    assert!(diff("a: 1.0\n", "a: 1.00\n").is_empty());
    assert_eq!(diff("a: +nan\n", "a: +nan\n"), vec!["~ a: +nan -> +nan".to_string()]);
    assert!(diff("a: -0.0\n", "a: 0.0\n").is_empty());
    assert_eq!(diff("a:\n", "a: 1\n"), vec!["~ a: null -> 1".to_string()]);
}

#[test]
fn aliases_compare_as_what_they_refer_to() {
    assert!(diff("a: &x 1\nb: *x\n", "a: 1\nb: 1\n").is_empty());
    assert_eq!(diff("a: &x 1\nb: *x\n", "a: 1\nb: 2\n"), vec!["~ b: 1 -> 2".to_string()]);
}

#[test]
fn nested_paths_are_dotted() {
    assert_eq!(diff("a:\n  b:\n    - c: 1\n", "a:\n  b:\n    - c: 2\n"), vec!["~ a.b.0.c: 1 -> 2".to_string()]);
}
