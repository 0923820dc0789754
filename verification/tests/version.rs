use tpt_yaml::version::YamlVersion;

#[test]
fn version_spellings() {
    assert_eq!(YamlVersion::Version11.as_str(), "1.1");
    assert_eq!(YamlVersion::Version12.as_str(), "1.2");
}

#[test]
fn version_parsing_trims_and_accepts_a_trailing_dot() {
    assert_eq!(YamlVersion::parse_text("1.1"), Ok(YamlVersion::Version11));
    assert_eq!(YamlVersion::parse_text("  1.2.\t"), Ok(YamlVersion::Version12));
    assert_eq!(YamlVersion::parse_text("1.3"), Err(()));
    assert_eq!(YamlVersion::parse_text(""), Err(()));
    assert_eq!("1.1.".parse::<YamlVersion>(), Ok(YamlVersion::Version11));
    assert_eq!("\u{3000}1.2".parse::<YamlVersion>(), Ok(YamlVersion::Version12));
}
