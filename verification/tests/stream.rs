use tpt_yaml::diagnostics::{ErrorKind, YamlError};
use tpt_yaml::node::{ParserOptions, ScalarValue};
use tpt_yaml::parser::{parse_with, SexagesimalFloats};
use tpt_yaml::stream::{collect_events, events_with_options, Event, EventParser, ScalarEvent};
use tpt_yaml::version::YamlVersion;

/// Reads YAML 1.1 sexagesimal floats with double arithmetic.
struct Doubles;

impl SexagesimalFloats for Doubles {
    fn is_sexagesimal_float(&self, text: &str) -> bool {
        if !text.contains(':') {
            return false;
        }
        let value = text.replace(',', "");
        let parts: Vec<&str> = value.split(':').collect();
        if parts.len() == 2 || parts.len() == 3 {
            let whole = parts[0].parse::<f64>();
            let frac = parts[1].parse::<f64>();
            let sec = if parts.len() == 3 { parts[2].parse::<f64>() } else { Ok(0.0) };
            if let (Ok(_), Ok(frac), Ok(sec)) = (whole, frac, sec) {
                return (0.0..60.0).contains(&frac) && (0.0..60.0).contains(&sec);
            }
        }
        false
    }
}

fn collect(source: &str) -> Result<Vec<Event>, YamlError> {
    collect_events(source, &Doubles)
}

fn collect_events_with_options(source: &str, options: &ParserOptions) -> Result<Vec<Event>, YamlError> {
    events_with_options(source, options, &Doubles).collect_events()
}

fn scalar(events: &[Event], index: usize) -> &ScalarEvent {
    match &events[index] {
        Event::Scalar(scalar) => scalar,
        other => panic!("expected a scalar event at index {index}, got {other:?}"),
    }
}

fn kind_name(e: &Event) -> &'static str {
    match e {
        Event::StreamStart => "StreamStart",
        Event::StreamEnd => "StreamEnd",
        Event::DocumentStart => "DocumentStart",
        Event::DocumentEnd => "DocumentEnd",
        Event::MappingStart(_) => "MappingStart",
        Event::MappingEnd => "MappingEnd",
        Event::SequenceStart(_) => "SequenceStart",
        Event::SequenceEnd => "SequenceEnd",
        Event::Scalar(_) => "Scalar",
        Event::Alias(_) => "Alias",
    }
}

#[test]
fn emits_a_flat_mapping() {
    let events = collect("a: 1\nb: two\n").unwrap();
    assert_eq!(events.first(), Some(&Event::StreamStart));
    assert_eq!(events.get(1), Some(&Event::DocumentStart));
    assert!(matches!(events.get(2), Some(Event::MappingStart(_))));
    assert!(matches!(events.get(7), Some(Event::MappingEnd)));
    assert_eq!(events.get(8), Some(&Event::DocumentEnd));
    assert_eq!(events.get(9), Some(&Event::StreamEnd));
    assert_eq!(events.len(), 10);
    assert_eq!(scalar(&events, 3).value, ScalarValue::String(String::from("a")));
    assert_eq!(scalar(&events, 4).value, ScalarValue::Int(1));
    assert_eq!(scalar(&events, 5).value, ScalarValue::String(String::from("b")));
    assert_eq!(scalar(&events, 6).value, ScalarValue::String(String::from("two")));
}

#[test]
fn emits_nested_sequences_and_flow_collections() {
    let events = collect("items: [1, {x: 2}]\n").unwrap();
    let kinds: Vec<&str> = events.iter().map(kind_name).collect();
    assert_eq!(
        kinds,
        vec![
            "StreamStart",
            "DocumentStart",
            "MappingStart",
            "Scalar",
            "SequenceStart",
            "Scalar",
            "MappingStart",
            "Scalar",
            "Scalar",
            "MappingEnd",
            "SequenceEnd",
            "MappingEnd",
            "DocumentEnd",
            "StreamEnd",
        ]
    );
}

#[test]
fn emits_anchors_and_aliases() {
    let events = collect("a: &x 1\nb: *x\n").unwrap();
    let anchor_event = events.iter().find_map(|e| match e {
        Event::Scalar(scalar) if scalar.anchor.is_some() => Some(scalar),
        _ => None,
    });
    assert_eq!(anchor_event.unwrap().anchor.as_deref(), Some("x"));
    let alias = events.iter().find_map(|e| match e {
        Event::Alias(alias) => Some(alias),
        _ => None,
    });
    assert_eq!(alias.unwrap().name, "x");
}

#[test]
fn rejects_an_unknown_alias() {
    let err = collect("a: *missing\n").unwrap_err();
    assert_eq!(err.kind, ErrorKind::UnknownAnchor);
}

#[test]
fn rejects_a_duplicate_anchor() {
    let err = collect("a: &x 1\nb: &x 2\n").unwrap_err();
    assert_eq!(err.kind, ErrorKind::InvalidAnchor);
}

#[test]
fn rejects_merge_keys_by_default() {
    let err = collect("base: &b\n  a: 1\nchild:\n  <<: *b\n  b: 2\n").unwrap_err();
    assert_eq!(err.kind, ErrorKind::InvalidMergeKey);
}

#[test]
fn treats_merge_key_as_a_plain_key_when_disabled() {
    let options = ParserOptions { merge_keys: false, ..ParserOptions::default() };
    let err = collect_events_with_options("child:\n  <<: *b\n  b: 2\n", &options).unwrap_err();
    assert_eq!(err.kind, ErrorKind::UnknownAnchor);
}

#[test]
fn stream_strict_version_rejects_a_1_1_vs_1_2_ambiguous_scalar() {
    let options = ParserOptions { strict_version: true, ..ParserOptions::default() };
    let err = collect_events_with_options("a: 0755\n", &options).unwrap_err();
    assert_eq!(err.kind, ErrorKind::AmbiguousVersion);
}

#[test]
fn stream_strict_version_accepts_an_unambiguous_scalar() {
    let options = ParserOptions { strict_version: true, ..ParserOptions::default() };
    let events = collect_events_with_options("a: true\nb: 42\n", &options).unwrap();
    assert!(!events.is_empty());
}

#[test]
fn stream_strict_version_is_inert_when_a_version_is_pinned() {
    let options = ParserOptions {
        strict_version: true,
        yaml_version: Some(YamlVersion::Version11),
        ..ParserOptions::default()
    };
    let events = collect_events_with_options("a: 0755\n", &options).unwrap();
    assert!(!events.is_empty());
}

#[test]
fn stream_strict_version_is_inert_when_a_yaml_directive_pins_the_version() {
    let options = ParserOptions { strict_version: true, ..ParserOptions::default() };
    let events = collect_events_with_options("%YAML 1.1\n---\na: 0755\n", &options).unwrap();
    assert!(!events.is_empty());
}

#[test]
fn emits_every_document_in_a_multi_doc_stream() {
    let events = collect("a\n---\nb\n---\nc\n").unwrap();
    let doc_starts = events.iter().filter(|e| **e == Event::DocumentStart).count();
    let doc_ends = events.iter().filter(|e| **e == Event::DocumentEnd).count();
    assert_eq!(doc_starts, 3);
    assert_eq!(doc_ends, 3);
    assert_eq!(events.first(), Some(&Event::StreamStart));
    assert_eq!(events.last(), Some(&Event::StreamEnd));
}

#[test]
fn empty_input_yields_a_single_null_document() {
    let events = collect("").unwrap();
    assert_eq!(events[..2], [Event::StreamStart, Event::DocumentStart][..]);
    assert_eq!(events[3..], [Event::DocumentEnd, Event::StreamEnd][..]);
    assert_eq!(events.len(), 5);
    assert_eq!(scalar(&events, 2).value, ScalarValue::Null);
}

#[test]
fn next_event_is_resumable_across_calls() {
    let mut parser = EventParser::new("a: 1\n", &ParserOptions::default(), &Doubles);
    let mut collected = Vec::new();
    while let Some(event) = parser.next_event().unwrap() {
        collected.push(event);
    }
    assert_eq!(collected.len(), collect("a: 1\n").unwrap().len());
    assert_eq!(parser.next_event().unwrap(), None);
    assert_eq!(parser.next_event().unwrap(), None);
}

#[test]
fn finish_drops_the_remainder_of_the_stream() {
    let mut parser = EventParser::new("a: 1\nb: 2\n", &ParserOptions::default(), &Doubles);
    assert_eq!(parser.next_event().unwrap(), Some(Event::StreamStart));
    parser.finish();
    assert_eq!(parser.next_event().unwrap(), None);
}

#[test]
fn agrees_with_the_arena_parser_on_multi_doc_streams() {
    let source = "a: 1\n---\nb: 2\n";
    let arena = parse_with(source, &ParserOptions::default(), &Doubles).unwrap();
    let event_docs = collect(source).unwrap().iter().filter(|e| **e == Event::DocumentStart).count();
    assert_eq!(arena.documents.len(), event_docs);
}

/// Checks that starts and ends nest: every end closes the innermost open construct of its kind.
fn nests(events: &[Event]) -> bool {
    let mut stack: Vec<&str> = Vec::new();
    for (i, e) in events.iter().enumerate() {
        match e {
            Event::StreamStart => {
                if !stack.is_empty() {
                    return false;
                }
                stack.push("stream");
            }
            Event::DocumentStart => stack.push("document"),
            Event::MappingStart(_) => stack.push("mapping"),
            Event::SequenceStart(_) => stack.push("sequence"),
            Event::StreamEnd => {
                if stack.pop() != Some("stream") || i + 1 != events.len() {
                    return false;
                }
            }
            Event::DocumentEnd => {
                if stack.pop() != Some("document") {
                    return false;
                }
            }
            Event::MappingEnd => {
                if stack.pop() != Some("mapping") {
                    return false;
                }
            }
            Event::SequenceEnd => {
                if stack.pop() != Some("sequence") {
                    return false;
                }
            }
            Event::Scalar(_) | Event::Alias(_) => {}
        }
    }
    stack.is_empty()
}

#[test]
fn every_start_is_matched_by_its_end() {
    let sources = [
        "",
        "plain\n",
        "a:\n  - 1\n  - [2, {b: c}]\n  - d: e\n    f:\n      - g\n",
        "- - - deep\n",
        "a: &x [1, 2]\nb: *x\n---\nsecond\n...\n",
        "{a: 1, b: [x, y], c: {d: e}}\n",
    ];
    for source in sources {
        let events = collect(source).unwrap();
        assert!(nests(&events), "{source:?}: {events:?}");
    }
}

#[test]
fn an_error_exhausts_the_parser() {
    let mut parser = EventParser::new("a: *missing\n", &ParserOptions::default(), &Doubles);
    let mut saw_error = false;
    loop {
        match parser.next_event() {
            Ok(Some(_)) => {}
            Ok(None) => break,
            Err(e) => {
                assert_eq!(e.kind, ErrorKind::UnknownAnchor);
                saw_error = true;
            }
        }
    }
    assert!(saw_error);
    assert_eq!(parser.next_event().unwrap(), None);
}

#[test]
fn collection_events_carry_anchor_tag_and_span() {
    let events = collect("a: &m !t {x: 1}\n").unwrap();
    let meta = events.iter().find_map(|e| match e {
        Event::MappingStart(meta) if meta.anchor.is_some() => Some(meta),
        _ => None,
    });
    let meta = meta.unwrap();
    assert_eq!(meta.anchor.as_deref(), Some("m"));
    assert_eq!(meta.tag.as_deref(), Some("t"));
    assert_eq!(meta.span.start, 9);
}

#[test]
fn quoted_scalars_stay_strings() {
    let events = collect("a: '1'\nb: \"true\"\nc: 1\n").unwrap();
    assert_eq!(scalar(&events, 4).value, ScalarValue::String(String::from("1")));
    assert_eq!(scalar(&events, 6).value, ScalarValue::String(String::from("true")));
    assert_eq!(scalar(&events, 8).value, ScalarValue::Int(1));
}
