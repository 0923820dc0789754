use tpt_yaml::edit::{path_to_string, Error, Key, Path};

#[test]
fn path_builder_and_split_last() {
    let p = Path::root().field("a").index(0).field("b");
    assert!(!p.is_empty());
    assert_eq!(
        p.keys(),
        &[Key::Field("a".to_string()), Key::Index(0), Key::Field("b".to_string())][..]
    );
    let (init, last) = p.split_last().unwrap();
    assert_eq!(last, Key::Field("b".to_string()));
    assert_eq!(init, Path::root().field("a").index(0));
    assert!(Path::root().is_empty());
    assert_eq!(Path::root().split_last(), None);
    assert_eq!(Path::default(), Path::root());
}

#[test]
fn path_rendering() {
    assert_eq!(path_to_string(&[]), "<root>");
    let p = Path::root().field("config").field("tags").index(12);
    assert_eq!(path_to_string(p.keys()), "config.tags.12");
    let q = Path::root().index(3).field("x");
    assert_eq!(path_to_string(q.keys()), "3.x");
    let r = Path::root().field("").field("x");
    assert_eq!(path_to_string(r.keys()), "x");
}

#[test]
fn edit_error_messages() {
    assert_eq!(Error::EmptyDocument.message(), "document has no root node");
    assert_eq!(Error::TypeMismatch.message(), "path segment does not match the node's kind");
    assert_eq!(Error::Parse("boom".to_string()).message(), "boom");
}
