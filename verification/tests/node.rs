use tpt_yaml::lexer::ScalarStyle as LexScalarStyle;
use tpt_yaml::node::{convert_scalar_style, NodeId, ParserOptions, ScalarStyle};

#[test]
fn node_id_exposes_its_index() {
    assert_eq!(NodeId(7).get(), 7);
    assert!(NodeId(1) < NodeId(2));
}

#[test]
fn parser_options_default() {
    let o = ParserOptions::default();
    assert_eq!(o.yaml_version, None);
    assert!(o.merge_keys);
    assert!(!o.strict_version);
}

#[test]
fn lexer_styles_map_to_document_styles() {
    assert_eq!(convert_scalar_style(LexScalarStyle::Plain), ScalarStyle::Plain);
    assert_eq!(convert_scalar_style(LexScalarStyle::SingleQuoted), ScalarStyle::SingleQuoted);
    assert_eq!(convert_scalar_style(LexScalarStyle::DoubleQuoted), ScalarStyle::DoubleQuoted);
}
