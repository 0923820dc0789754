use tpt_yaml::event::{events, Event};
use tpt_yaml::node::ParserOptions;
use tpt_yaml::parser::{parse_with, SexagesimalFloats};

struct NoSexagesimal;

impl SexagesimalFloats for NoSexagesimal {
    fn is_sexagesimal_float(&self, _text: &str) -> bool {
        false
    }
}

#[test]
fn lists_each_node_once_and_aliases_by_target() {
    let doc = parse_with("a: &x 1\nb: *x\n", &ParserOptions::default(), &NoSexagesimal).unwrap();
    let listing = events(&doc);
    assert_eq!(listing.len(), 7);
    assert_eq!(listing[0], Event::DocumentStart);
    assert_eq!(listing[6], Event::DocumentEnd);
    assert_eq!(listing[1], Event::Node(doc.root().unwrap()));
    match (&listing[3], &listing[5]) {
        (Event::Node(anchored), Event::Alias(target)) => assert_eq!(anchored, target),
        other => panic!("unexpected listing {other:?}"),
    }
}

#[test]
fn lists_every_document() {
    let doc = parse_with("a\n---\n[b, c]\n", &ParserOptions::default(), &NoSexagesimal).unwrap();
    let listing = events(&doc);
    let starts = listing.iter().filter(|e| **e == Event::DocumentStart).count();
    assert_eq!(starts, 2);
    assert_eq!(listing.len(), 2 + 1 + 2 + 3);
}
