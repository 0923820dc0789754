use tpt_yaml::node::NodeId;
use tpt_yaml::schema::{
    entry_name, pop_path, Error, IssueKind, JsonType, ValidationIssue, ValidationReport,
    ValidationSettings,
};

fn issue(path: &str, kind: IssueKind, message: &str) -> ValidationIssue {
    ValidationIssue { path: path.to_string(), kind, message: message.to_string(), node: NodeId(0), span: None }
}

#[test]
fn json_type_names() {
    assert_eq!(JsonType::from_name("integer"), Some(JsonType::Number));
    assert_eq!(JsonType::from_name("number"), Some(JsonType::Number));
    assert_eq!(JsonType::from_name("object"), Some(JsonType::Object));
    assert_eq!(JsonType::from_name("Object"), None);
    for t in [JsonType::Null, JsonType::Boolean, JsonType::Number, JsonType::String, JsonType::Array, JsonType::Object] {
        assert_eq!(JsonType::from_name(t.name()), Some(t));
    }
}

#[test]
fn issue_kind_text_and_order() {
    assert_eq!(IssueKind::TypeMismatch.description(), "type mismatch");
    assert_eq!(IssueKind::NotMatched.description(), "matched `not`");
    assert_eq!(IssueKind::TypeMismatch.index(), 0);
    assert_eq!(IssueKind::DepthExceeded.index(), 25);
}

#[test]
fn report_is_sorted_by_path_then_kind_and_stable() {
    let issues = vec![
        issue("ports", IssueKind::MinItems, "first"),
        issue("mode", IssueKind::EnumMismatch, "m"),
        issue("", IssueKind::RequiredMissing, "root"),
        issue("ports", IssueKind::TypeMismatch, "t"),
        issue("ports", IssueKind::MinItems, "second"),
        issue("name", IssueKind::TypeMismatch, "n"),
    ];
    let report = ValidationReport::from_issues(issues);
    let order: Vec<(&str, IssueKind, &str)> =
        report.issues().iter().map(|i| (i.path.as_str(), i.kind, i.message.as_str())).collect();
    assert_eq!(
        order,
        vec![
            ("", IssueKind::RequiredMissing, "root"),
            ("mode", IssueKind::EnumMismatch, "m"),
            ("name", IssueKind::TypeMismatch, "n"),
            ("ports", IssueKind::TypeMismatch, "t"),
            ("ports", IssueKind::MinItems, "first"),
            ("ports", IssueKind::MinItems, "second"),
        ]
    );
    assert_eq!(report.issue_count(), 6);
    assert!(!report.is_valid());
    assert!(ValidationReport::default().is_valid());
}

#[test]
fn report_order_is_deterministic() {
    let make = || vec![issue("b", IssueKind::Maximum, "x"), issue("a", IssueKind::Minimum, "y")];
    assert_eq!(ValidationReport::from_issues(make()), ValidationReport::from_issues(make()));
}

#[test]
fn settings_builders() {
    let s = ValidationSettings::new();
    assert!(s.types && s.enums && s.strings && s.numbers && s.arrays && s.objects && s.combinators && s.refs);
    assert_eq!(s.max_depth, 64);
    let only = ValidationSettings::new().only(&["enums", "refs"]);
    assert!(only.enums && only.refs);
    assert!(!only.types && !only.objects && !only.strings);
    assert_eq!(only.max_depth, 64);
    assert_eq!(ValidationSettings::new().with_max_depth(3).max_depth, 3);
    assert_eq!(ValidationSettings::default(), ValidationSettings::new());
}

#[test]
fn schema_error_messages() {
    assert_eq!(Error::InvalidPattern("a**".to_string()).message(), "invalid pattern: a**");
    assert_eq!(Error::Parse("bad".to_string()).message(), "schema parse error: bad");
    assert_eq!(entry_name("key"), "key");
}

#[test]
fn popping_path_segments() {
    let mut p = "config.tags.0".to_string();
    pop_path(&mut p, "0");
    assert_eq!(p, "config.tags");
    pop_path(&mut p, "tags");
    assert_eq!(p, "config");
    pop_path(&mut p, "config");
    assert_eq!(p, "");
    let mut q = "a.b".to_string();
    pop_path(&mut q, "zzz");
    assert_eq!(q, "");
}
