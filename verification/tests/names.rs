use examplens::name::DNSName;

fn name(s: &str) -> DNSName {
    DNSName::parse(s.as_bytes()).expect("valid name")
}

#[test]
fn parse_simple_name() {
    let n = name("example.com");
    assert_eq!(n.label_count(), 2);
}

#[test]
fn parse_normalizes_case() {
    assert_eq!(name("ExAmPlE.CoM"), name("example.com"));
    assert_eq!(name("WWW.EXAMPLE.COM"), name("www.example.com"));
}

#[test]
fn parse_trailing_dot_is_fully_qualified() {
    assert_eq!(name("example.com."), name("example.com"));
}

#[test]
fn parse_root_is_single_dot() {
    let root = name(".");
    assert_eq!(root.label_count(), 0);
    assert_eq!(root, DNSName::root());
}

#[test]
fn parse_allows_digits_hyphen_underscore() {
    let n = name("_tcp.my-host1.example");
    assert_eq!(n.label_count(), 3);
}

#[test]
fn parse_rejects_empty_text() {
    assert!(DNSName::parse(b"").is_err());
}

#[test]
fn parse_rejects_empty_label() {
    assert!(DNSName::parse(b"a..b").is_err());
    assert!(DNSName::parse(b".example").is_err());
    assert!(DNSName::parse(b"example..").is_err());
}

#[test]
fn parse_rejects_bad_byte() {
    assert!(DNSName::parse(b"exa mple.com").is_err());
    assert!(DNSName::parse(b"exam!ple").is_err());
}

#[test]
fn parse_rejects_long_label() {
    let label_63 = "a".repeat(63);
    let label_64 = "a".repeat(64);
    assert!(DNSName::parse(format!("{}.com", label_63).as_bytes()).is_ok());
    assert!(DNSName::parse(format!("{}.com", label_64).as_bytes()).is_err());
}

#[test]
fn parse_rejects_long_name() {
    // Sixty-three labels of three bytes cost four bytes each in wire
    // form: 252 in all, within the limit; one more label goes over.
    let ok = vec!["abc"; 63].join(".");
    let too_long = vec!["abc"; 64].join(".");
    assert!(DNSName::parse(ok.as_bytes()).is_ok());
    assert!(DNSName::parse(too_long.as_bytes()).is_err());
}

#[test]
fn suffix_of_ancestor_or_equal() {
    assert!(name("example.com").suffix_of(&name("www.example.com")));
    assert!(name("example.com").suffix_of(&name("example.com")));
    assert!(name(".").suffix_of(&name("example.com")));
    assert!(!name("www.example.com").suffix_of(&name("example.com")));
    assert!(!name("other.org").suffix_of(&name("www.example.com")));
    // A suffix of the text is not a suffix of the label sequence.
    assert!(!name("ple.com").suffix_of(&name("example.com")));
}

#[test]
fn duplicate_preserves_name() {
    let n = name("www.example.com");
    assert_eq!(n.duplicate(), n);
}

#[test]
fn admin_contact_prepends_label() {
    let n = name("example.com");
    assert_eq!(n.admin_contact(), name("administrator.example.com"));
}

#[test]
fn to_text_renders_fully_qualified() {
    assert_eq!(name("www.Example.COM").to_text(), b"www.example.com.".to_vec());
    assert_eq!(name(".").to_text(), b".".to_vec());
    // Rendering and parsing round-trip.
    let n = name("a.b-c.example");
    assert_eq!(DNSName::parse(&n.to_text()).expect("round trip"), n);
}

#[test]
fn wire_size_counts_length_bytes() {
    // Each label costs its bytes plus one length byte.
    assert_eq!(name("example.com").wire_size(), 12);
    assert_eq!(name(".").wire_size(), 0);
}
