use tpt_yaml::diagnostics::ErrorKind;
use tpt_yaml::lexer::{lex, Chomping, Lexer, ScalarStyle, TokenKind};

#[test]
fn lexes_simple_mapping() {
    let tokens = lex("key: value\n").unwrap();
    assert!(matches!(tokens[0].kind, TokenKind::Scalar { .. }));
    assert!(matches!(tokens[1].kind, TokenKind::Colon));
    assert!(matches!(tokens[2].kind, TokenKind::Scalar { .. }));
    assert!(matches!(tokens.last().unwrap().kind, TokenKind::Eof));
}

#[test]
fn rejects_tab_indentation() {
    let err = lex("key:\n\tvalue\n").unwrap_err();
    assert_eq!(err.kind, ErrorKind::TabCharacter);
}

#[test]
fn lexes_block_literal_scalar() {
    let tokens = lex("text: |\n  line one\n  line two\nafter: 1\n").unwrap();
    let block = tokens.iter().find_map(|t| match &t.kind {
        TokenKind::BlockScalar { value, .. } => Some(value.clone()),
        _ => None,
    });
    assert_eq!(block.as_deref(), Some("line one\nline two\n"));
}

#[test]
fn lexes_quoted_scalars_with_escapes() {
    let tokens = lex("k: \"a\\nb\"\n").unwrap();
    let raw = tokens.iter().find_map(|t| match &t.kind {
        TokenKind::Scalar { raw, style: ScalarStyle::DoubleQuoted, .. } => Some(raw.clone()),
        _ => None,
    });
    assert_eq!(raw.as_deref(), Some("a\nb"));
}

#[test]
fn lexes_anchor_and_alias() {
    let tokens = lex("a: &x 1\nb: *x\n").unwrap();
    assert!(tokens.iter().any(|t| matches!(&t.kind, TokenKind::Anchor(name) if name == "x")));
    assert!(tokens.iter().any(|t| matches!(&t.kind, TokenKind::Alias(name) if name == "x")));
}

#[test]
fn lex_equals_draining_next_token() {
    let source = "a: [1, 2]\n# note\n--- \nb: 'it''s'\n";
    let eager = lex(source).unwrap();
    let mut lexer = Lexer::new(source);
    let mut drained = Vec::new();
    while let Some(t) = lexer.next_token().unwrap() {
        drained.push(t);
    }
    assert_eq!(eager, drained);
    assert!(lexer.next_token().unwrap().is_none());
}

#[test]
fn spans_carry_byte_offsets_lines_and_columns() {
    let tokens = lex("é: 1\n  b: x\n").unwrap();
    // `é` is two bytes long, so the colon starts at byte 2.
    assert_eq!(tokens[1].kind, TokenKind::Colon);
    assert_eq!((tokens[1].span.start, tokens[1].span.end, tokens[1].span.line, tokens[1].span.column), (2, 3, 1, 3));
    let b = tokens.iter().find(|t| matches!(&t.kind, TokenKind::Scalar { raw, .. } if raw == "b")).unwrap();
    assert_eq!((b.span.start, b.span.line, b.span.column, b.indent), (8, 2, 3, 2));
}

#[test]
fn comment_directive_and_document_markers() {
    let tokens = lex("%YAML 1.2  \n---\nk: v # trailing\n...\n").unwrap();
    assert_eq!(tokens[0].kind, TokenKind::Directive("YAML 1.2".to_string()));
    assert_eq!(tokens[1].kind, TokenKind::DocumentStart);
    assert!(tokens.iter().any(|t| t.kind == TokenKind::Comment("trailing".to_string())));
    assert!(tokens.iter().any(|t| t.kind == TokenKind::DocumentEnd));
}

#[test]
fn double_quoted_escapes_decode() {
    let tokens = lex("k: \"\\x41\\u00e9\\t\\q\"\n").unwrap();
    let raw = tokens.iter().find_map(|t| match &t.kind {
        TokenKind::Scalar { raw, style: ScalarStyle::DoubleQuoted, .. } => Some(raw.clone()),
        _ => None,
    });
    assert_eq!(raw.as_deref(), Some("Aé\tq"));
}

#[test]
fn invalid_escapes_and_unterminated_quotes_are_errors() {
    let err = lex("k: \"\\xZZ\"\n").unwrap_err();
    assert_eq!((err.kind, err.message.as_str(), err.offset), (ErrorKind::InvalidScalar, "invalid hexadecimal escape", 4));
    let err = lex("k: \"\\uD800\"\n").unwrap_err();
    assert_eq!(err.message, "invalid unicode escape");
    let err = lex("k: 'open\n").unwrap_err();
    assert_eq!((err.message.as_str(), err.offset, err.context.line, err.context.column), ("unterminated quoted scalar", 8, 1, 9));
    assert_eq!(err.context.text, "k: 'open");
}

#[test]
fn bad_anchor_and_block_header_are_errors() {
    let err = lex("a: & x\n").unwrap_err();
    assert_eq!((err.kind, err.offset), (ErrorKind::InvalidAnchor, 4));
    let err = lex("a: |x\n  b\n").unwrap_err();
    assert_eq!((err.kind, err.offset), (ErrorKind::InvalidScalar, 4));
}

#[test]
fn block_scalar_chomping_and_explicit_indent() {
    let tokens = lex("a: |-\n  x\n\n\nb: >+2\n    y\n\nc: |\n  z\n\n\n").unwrap();
    let blocks: Vec<(Chomping, Option<usize>, String)> = tokens
        .iter()
        .filter_map(|t| match &t.kind {
            TokenKind::BlockScalar { chomping, indentation, value, .. } => Some((*chomping, *indentation, value.clone())),
            _ => None,
        })
        .collect();
    assert_eq!(blocks[0], (Chomping::Strip, None, "x".to_string()));
    assert_eq!(blocks[1], (Chomping::Keep, Some(2), "  y\n\n".to_string()));
    assert_eq!(blocks[2], (Chomping::Clip, None, "z\n".to_string()));
}

#[test]
fn blank_lines_and_crlf() {
    let tokens = lex("a: 1\r\n   \r\nb: 2\r\n").unwrap();
    assert!(tokens.iter().any(|t| t.kind == TokenKind::BlankLine));
    assert!(tokens.iter().any(|t| matches!(&t.kind, TokenKind::Scalar { raw, .. } if raw == "2")));
}

#[test]
fn the_token_stream_ends_with_one_eof_and_is_ordered() {
    for source in ["", "a: b\n", "- [x, y]\n---\nk: |\n  text\n  more\nz: 1\n", "# only a comment\n\n"] {
        let tokens = lex(source).unwrap();
        assert!(matches!(tokens.last().unwrap().kind, TokenKind::Eof));
        assert_eq!(tokens.iter().filter(|t| matches!(t.kind, TokenKind::Eof)).count(), 1);
        for pair in tokens.windows(2) {
            assert!(pair[0].span.start <= pair[1].span.start);
        }
    }
}
