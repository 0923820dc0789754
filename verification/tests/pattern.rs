use tpt_yaml::pattern::compile;

fn matches(pattern: &str, text: &str) -> bool {
    compile(pattern).expect("pattern compiles").is_match(text)
}

#[test]
fn anchored_class_with_quantifier() {
    assert!(matches("^[A-Za-z]+$", "alpha"));
    assert!(!matches("^[A-Za-z]+$", "alpha1"));
    assert!(!matches("^[A-Za-z]+$", ""));
    assert!(!matches("^[A-Za-z]+$", "1alpha"));
}

#[test]
fn unanchored_search_finds_a_match_anywhere() {
    assert!(matches("b+c", "aaabbbcdd"));
    assert!(!matches("b+c", "aaabbbdd"));
    assert!(matches("x*", ""));
    assert!(matches("", "anything"));
}

#[test]
fn dollar_is_an_anchor_only_at_the_end() {
    assert!(matches("a$b", "xa$by"));
    assert!(matches("ab$", "xxab"));
    assert!(!matches("ab$", "abx"));
    assert!(matches("^$", ""));
    assert!(!matches("^$", "a"));
}

#[test]
fn negated_classes_exclude_their_members() {
    assert!(matches("^[^0-9]+$", "abc"));
    assert!(!matches("^[^0-9]+$", "ab1"));
    assert!(matches("[^a]", "ab"));
    assert!(!matches("[^a]", "aaa"));
}

#[test]
fn escapes_inside_and_outside_classes() {
    assert!(matches("^\\d+$", "12345"));
    assert!(!matches("^\\d+$", "12a45"));
    assert!(matches("^\\w\\s\\W$", "a !"));
    assert!(matches("^[\\d_]+$", "1_2"));
    assert!(matches("^\\.$", "."));
    assert!(!matches("^\\.$", "x"));
    assert!(matches("^\\S\\D$", "ab"));
}

#[test]
fn optional_and_star_quantifiers() {
    assert!(matches("^colou?r$", "color"));
    assert!(matches("^colou?r$", "colour"));
    assert!(!matches("^colou?r$", "colouur"));
    assert!(matches("^a.*z$", "abcz"));
    assert!(matches("^a.*z$", "az"));
}

#[test]
fn plus_requires_at_least_one_repetition() {
    assert!(!matches("^a+a$", "a"));
    assert!(matches("^a+a$", "aa"));
    assert!(matches("^a*a$", "a"));
}

#[test]
fn class_ranges_and_literal_brackets() {
    assert!(matches("^[]a]+$", "]a]"));
    assert!(matches("^[a-]$", "-"));
    assert!(matches("^[a-c]$", "b"));
    assert!(!matches("^[a-c]$", "d"));
}

#[test]
fn unsupported_syntax_is_rejected() {
    assert!(compile("*a").is_err());
    assert!(compile("a**").is_err());
    assert!(compile("a^b").is_err());
    assert!(compile("[abc").is_err());
    assert!(compile("abc\\").is_err());
    assert!(compile("^^").is_err());
    assert!(compile("^abc$").is_ok());
}
