use leaf::port_range::{parse_port_range, split_host_port, PeerAddressError};
use leaf::text::{chars_of, contains, ends_with, join_with_dot, split_labels, starts_with};

fn chars(s: &str) -> Vec<char> {
    s.chars().collect()
}

#[test]
fn characters_of_a_string() {
    assert_eq!(chars_of("a.b"), vec!['a', '.', 'b']);
    assert_eq!(chars_of(""), Vec::<char>::new());
    assert_eq!(chars_of("é."), vec!['é', '.']);
}

#[test]
fn labels_are_split_at_every_dot() {
    assert_eq!(split_labels(&chars("www.example.com")), vec![chars("www"), chars("example"), chars("com")]);
    assert_eq!(split_labels(&chars("example")), vec![chars("example")]);
    assert_eq!(split_labels(&chars("")), vec![chars("")]);
    assert_eq!(split_labels(&chars("a..b.")), vec![chars("a"), chars(""), chars("b"), chars("")]);
    assert_eq!(split_labels(&chars(".")), vec![chars(""), chars("")]);
}

#[test]
fn prefix_suffix_and_substring() {
    let s = chars("ads.example.com");
    assert!(starts_with(&s, &chars("ads.")));
    assert!(!starts_with(&s, &chars("ds.")));
    assert!(starts_with(&s, &chars("")));
    assert!(!starts_with(&chars("ad"), &chars("ads")));
    assert!(ends_with(&s, &chars(".com")));
    assert!(!ends_with(&s, &chars(".co")));
    assert!(ends_with(&s, &s));
    assert!(contains(&s, &chars("example")));
    assert!(contains(&s, &chars("")));
    assert!(contains(&s, &chars("m")));
    assert!(!contains(&s, &chars("examples")));
    assert!(!contains(&chars(""), &chars("a")));
    assert!(contains(&chars(""), &chars("")));
}

#[test]
fn two_labels_joined() {
    assert_eq!(join_with_dot(&chars("example"), &chars("com")), chars("example.com"));
    assert_eq!(join_with_dot(&chars(""), &chars("")), chars("."));
}

#[test]
fn port_range_is_two_ports_and_a_dash() {
    assert_eq!(parse_port_range("1024-5000"), Some((1024, 5000)));
    assert_eq!(parse_port_range("22-22"), Some((22, 22)));
    assert_eq!(parse_port_range("65535-65535"), Some((65535, 65535)));
    assert_eq!(parse_port_range("22-21"), None);
    assert_eq!(parse_port_range("22"), None);
    assert_eq!(parse_port_range("99999-1"), None);
    assert_eq!(parse_port_range("1-99999"), None);
    assert_eq!(parse_port_range("+-1"), None);
}

#[test]
fn peer_address_is_split_at_the_last_colon() {
    assert_eq!(split_host_port("1.2.3.4:53"), Ok(("1.2.3.4".to_string(), 53)));
    assert_eq!(split_host_port("example.com:443"), Ok(("example.com".to_string(), 443)));
    assert_eq!(split_host_port("::1:8080"), Ok(("::1".to_string(), 8080)));
    assert_eq!(split_host_port(":1"), Ok(("".to_string(), 1)));
    assert_eq!(split_host_port("example.com"), Err(PeerAddressError::NoPort));
    assert_eq!(split_host_port(""), Err(PeerAddressError::NoPort));
    assert_eq!(split_host_port("example.com:"), Err(PeerAddressError::BadPort));
    assert_eq!(split_host_port("example.com:http"), Err(PeerAddressError::BadPort));
    assert_eq!(split_host_port("example.com:65536"), Err(PeerAddressError::BadPort));
}
