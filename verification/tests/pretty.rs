use tpt_yaml::node::ParserOptions;
use tpt_yaml::parser::{parse_with, SexagesimalFloats};
use tpt_yaml::pretty::{pretty_print, FloatDisplay};

/// Floats print as doubles do.
struct Doubles;

impl SexagesimalFloats for Doubles {
    fn is_sexagesimal_float(&self, _text: &str) -> bool {
        false
    }
}

impl FloatDisplay for Doubles {
    fn display(&self, text: &str) -> String {
        let lower = text.to_ascii_lowercase();
        match lower.trim_start_matches(['+', '-']) {
            ".inf" => {
                if lower.starts_with('-') {
                    "-inf".to_string()
                } else {
                    "inf".to_string()
                }
            }
            ".nan" => "NaN".to_string(),
            _ => text.parse::<f64>().map(|f| f.to_string()).unwrap_or_else(|_| text.to_string()),
        }
    }
}

fn render(source: &str) -> String {
    let doc = parse_with(source, &ParserOptions::default(), &Doubles).unwrap();
    pretty_print(doc.root().unwrap(), &doc, &Doubles)
}

#[test]
fn renders_mappings_sequences_and_scalars() {
    assert_eq!(
        render("a: 1\nb:\n  - x\n  - 'y z'\nc: {}\nd: 1.50\n"),
        "a: 1\nb:\n  - x\n  - 'y z'\nc: {}\nd: 1.5\n"
    );
}

#[test]
fn renders_nested_collections_in_block_style() {
    assert_eq!(render("{a: [1, [2, 3]], b: {c: d}}"), "a:\n  - 1\n  -\n    - 2\n    - 3\nb:\n  c: d\n");
}

#[test]
fn renders_aliases_by_anchor() {
    assert_eq!(render("a: &x 1\nb: *x\n"), "a: 1\nb: *x\n");
}

#[test]
fn quotes_and_escapes_strings() {
    assert_eq!(render("a: \"q\\\"t\"\nb: ''\nc: 'it''s'\n"), "a: \"q\\\"t\"\nb: ''\nc: 'it''s'\n");
}

#[test]
fn renders_a_block_scalar_root_line_by_line() {
    assert_eq!(render("|\n  one\n  two\n"), "|\n one\n two\n");
}

#[test]
fn renders_null_booleans_and_negative_integers() {
    assert_eq!(render("- ~\n- true\n- -42\n"), "- null\n- true\n- -42\n");
}
