use tpt_yaml::diff::text_diff;

#[test]
fn identical_texts_have_no_diff() {
    assert!(text_diff("a\nb\n", "a\nb\n").is_empty());
    assert!(text_diff("", "").is_empty());
}

#[test]
fn changed_line_is_removed_then_added() {
    assert_eq!(text_diff("a\nb\nc\n", "a\nx\nc\n"), vec!["-b".to_string(), "+x".to_string()]);
}

#[test]
fn insertions_and_deletions() {
    assert_eq!(text_diff("a\nc", "a\nb\nc"), vec!["+b".to_string()]);
    assert_eq!(text_diff("a\nb\nc", "a\nc"), vec!["-b".to_string()]);
    assert_eq!(text_diff("", "x\ny\n"), vec!["+x".to_string(), "+y".to_string()]);
}

#[test]
fn crlf_endings_do_not_count_as_changes() {
    assert!(text_diff("a\r\nb\r\n", "a\nb").is_empty());
    assert_eq!(text_diff("a\r", "a"), vec!["-a\r".to_string(), "+a".to_string()]);
}

#[test]
fn the_diff_is_a_shortest_edit() {
    let d = text_diff("a\nb\nc\nd\n", "a\nc\nd\ne\n");
    assert_eq!(d, vec!["-b".to_string(), "+e".to_string()]);
    let d = text_diff("x\ny\n", "y\nx\n");
    assert_eq!(d.iter().filter(|l| l.starts_with('-')).count(), 1);
    assert_eq!(d.iter().filter(|l| l.starts_with('+')).count(), 1);
}
