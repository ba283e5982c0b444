use netdb::files::{line_entry, line_fields, line_names};
use netdb::hosts::IpAddr;

#[test]
fn fields_stop_at_comment() {
    let f = line_fields("  127.0.0.1\tlocalhost   lh # the loopback");
    assert_eq!(f, vec!["127.0.0.1".to_string(), "localhost".to_string(), "lh".to_string()]);
    assert!(line_fields("# only a comment").is_empty());
    assert!(line_fields("").is_empty());
}

#[test]
fn names_after_the_address() {
    let f = line_fields("10.0.0.5 db.example db");
    assert!(line_names(&f, "db"));
    assert!(line_names(&f, "db.example"));
    assert!(!line_names(&f, "10.0.0.5"));
    assert!(!line_names(&f, "web"));
}

#[test]
fn entry_from_line() {
    let f = line_fields("10.0.0.5 db.example db database");
    let addr = IpAddr::V4(0x0a00_0005);
    let e = line_entry(&f, addr).unwrap();
    assert_eq!(e.name(), "db.example");
    assert_eq!(e.aliases(), &["db".to_string(), "database".to_string()][..]);
    assert_eq!(e.addrs(), &[addr][..]);
    let lone = line_fields("10.0.0.6");
    assert!(line_entry(&lone, addr).is_none());
}

#[test]
fn entry_needs_a_name() {
    let fields = vec!["10.0.0.7".to_string(), String::new()];
    assert!(line_entry(&fields, IpAddr::V4(0x0a00_0007)).is_none());
}
