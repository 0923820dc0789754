use tpt_yaml::format::Format;

#[test]
fn email() {
    for ok in ["a@b.co", "alice.bob+tag@sub.example.com"] {
        assert!(Format::Email.is_match(ok), "{ok}");
    }
    for bad in ["", "no-at-sign", "@b.co", "a@", "a@nodot", "a..b@example.com", "a@b..com"] {
        assert!(!Format::Email.is_match(bad), "{bad}");
    }
}

#[test]
fn date_time() {
    for ok in [
        "2024-01-15T10:30:00Z",
        "2024-01-15t10:30:00z",
        "2024-01-15T10:30:00.123456+02:00",
        "2024-02-29T00:00:00Z",
    ] {
        assert!(Format::DateTime.is_match(ok), "{ok}");
    }
    for bad in [
        "2024-01-15",
        "10:30:00Z",
        "2024-01-15T10:30:00",
        "2024-13-01T00:00:00Z",
        "2024-01-32T00:00:00Z",
        "2024-01-15T25:00:00Z",
        "2023-02-29T00:00:00Z",
        "not-a-date-time",
    ] {
        assert!(!Format::DateTime.is_match(bad), "{bad}");
    }
}

#[test]
fn date() {
    assert!(Format::Date.is_match("2024-01-15"));
    assert!(Format::Date.is_match("2000-02-29"));
    assert!(!Format::Date.is_match("2024-02-30"));
    assert!(!Format::Date.is_match("1900-02-29"));
    assert!(!Format::Date.is_match("2024-1-15"));
}

#[test]
fn uri() {
    for ok in [
        "https://example.com/path?q=1",
        "mailto:alice@example.com",
        "urn:isbn:0451450523",
        "file:///etc/hosts",
    ] {
        assert!(Format::Uri.is_match(ok), "{ok}");
    }
    for bad in ["not a uri", "://no-scheme", "http:", "1http://bad-scheme-start"] {
        assert!(!Format::Uri.is_match(bad), "{bad}");
    }
}

#[test]
fn ipv4() {
    for ok in ["0.0.0.0", "192.168.1.1", "255.255.255.255"] {
        assert!(Format::Ipv4.is_match(ok), "{ok}");
    }
    for bad in ["256.1.1.1", "1.2.3", "1.2.3.4.5", "01.2.3.4", "a.b.c.d"] {
        assert!(!Format::Ipv4.is_match(bad), "{bad}");
    }
}

#[test]
fn ipv6() {
    for ok in ["2001:db8::1", "::1", "::", "fe80::1234:5678:9abc:def0", "1:2:3:4:5:6:7:8"] {
        assert!(Format::Ipv6.is_match(ok), "{ok}");
    }
    for bad in ["not-ipv6", "1:2:3:4:5:6:7:8:9", "12345::1", "1::2::3"] {
        assert!(!Format::Ipv6.is_match(bad), "{bad}");
    }
}

#[test]
fn uuid() {
    assert!(Format::Uuid.is_match("550e8400-e29b-41d4-a716-446655440000"));
    assert!(!Format::Uuid.is_match("not-a-uuid"));
    assert!(!Format::Uuid.is_match("550e8400-e29b-41d4-a716-44665544000"));
}

#[test]
fn from_name_round_trips_and_rejects_unknown() {
    for f in [
        Format::Email,
        Format::DateTime,
        Format::Date,
        Format::Uri,
        Format::Ipv4,
        Format::Ipv6,
        Format::Uuid,
    ] {
        assert_eq!(Format::from_name(f.name()), Some(f));
    }
    assert_eq!(Format::from_name("not-a-real-format"), None);
}

#[test]
fn format_names_are_the_keyword_spellings() {
    assert_eq!(Format::DateTime.name(), "date-time");
    assert_eq!(Format::from_name("date-time"), Some(Format::DateTime));
    assert_eq!(Format::from_name("Date"), None);
    assert_eq!(Format::from_name(""), None);
}

#[test]
fn email_length_limits_count_bytes() {
    let local64 = "a".repeat(64);
    let local65 = "a".repeat(65);
    assert!(Format::Email.is_match(&format!("{local64}@x.io")));
    assert!(!Format::Email.is_match(&format!("{local65}@x.io")));
    assert!(!Format::Email.is_match(".a@x.io"));
    assert!(!Format::Email.is_match("a.@x.io"));
    assert!(!Format::Email.is_match("a b@x.io"));
    assert!(!Format::Email.is_match("a@-x.io"));
    assert!(!Format::Email.is_match("a@x-.io"));
    assert!(!Format::Email.is_match("a@x.io."));
    assert!(!Format::Email.is_match("é@x.io"));
}

#[test]
fn time_offsets_and_fractions() {
    assert!(Format::DateTime.is_match("2024-01-15T23:59:60-23:59"));
    assert!(!Format::DateTime.is_match("2024-01-15T23:59:61Z"));
    assert!(!Format::DateTime.is_match("2024-01-15T10:30:00+24:00"));
    assert!(!Format::DateTime.is_match("2024-01-15T10:30:00+02:60"));
    assert!(!Format::DateTime.is_match("2024-01-15T10:30:00.Z"));
    assert!(!Format::DateTime.is_match("2024-01-15T10:30:00.1a+02:00"));
    assert!(!Format::DateTime.is_match("2024-01-15T10:30+02:00"));
    assert!(!Format::DateTime.is_match("2024-01-15T10:30:+1Z"));
    assert!(!Format::DateTime.is_match("2024-01-15T10:30:00++1:00"));
}

#[test]
fn date_and_time_fields_are_plain_digits() {
    assert!(!Format::Date.is_match("2024-+1-15"));
    assert!(!Format::Date.is_match("+024-01-15"));
    assert!(!Format::Date.is_match("2024-01-+5"));
    assert!(Format::Date.is_match("2024-01-15"));
    assert!(!Format::DateTime.is_match("2024-01-15T+1:30:00Z"));
}

#[test]
fn leap_years_follow_the_gregorian_rule() {
    assert!(Format::Date.is_match("2000-02-29"));
    assert!(Format::Date.is_match("2024-02-29"));
    assert!(!Format::Date.is_match("2100-02-29"));
    assert!(!Format::Date.is_match("2023-02-29"));
    assert!(Format::Date.is_match("2023-04-30"));
    assert!(!Format::Date.is_match("2023-04-31"));
    assert!(!Format::Date.is_match("2023-00-10"));
    assert!(!Format::Date.is_match("2023-01-00"));
}

#[test]
fn uri_rejects_whitespace_anywhere() {
    assert!(!Format::Uri.is_match("http://a b"));
    assert!(!Format::Uri.is_match("http://a\u{3000}b"));
    assert!(Format::Uri.is_match("a+b.c-d:x"));
    assert!(!Format::Uri.is_match("a_b:x"));
}

#[test]
fn ipv4_and_ipv6_edges() {
    assert!(!Format::Ipv4.is_match("1.2.3.+4"));
    assert!(!Format::Ipv4.is_match("1.2.3.1000"));
    assert!(Format::Ipv6.is_match("1:2:3:4:5:6:7::"));
    assert!(!Format::Ipv6.is_match("1:2:3:4:5:6:7:8::"));
    assert!(!Format::Ipv6.is_match(":::"));
    assert!(!Format::Ipv6.is_match("::g"));
}

#[test]
fn uuid_accepts_mixed_case_hex() {
    assert!(Format::Uuid.is_match("550E8400-E29B-41d4-A716-446655440000"));
    assert!(!Format::Uuid.is_match("550e8400-e29b-41d4-a716-44665544000g"));
}
