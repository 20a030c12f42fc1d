//! The Hesiod configuration and the lookup name.

use authorized_dns_keys::config::{build_address, ConfigError, HesiodConfig};

#[test]
fn lhs_and_rhs_are_read() {
    let config = HesiodConfig::new("hs=x\nlhs=foo\nrhs=.bar.com\n").unwrap();
    assert_eq!(config.lhs(), "foo");
    assert_eq!(config.rhs(), ".bar.com");
    assert_eq!(config.domain(), "foo.bar.com");
}

#[test]
fn order_of_the_two_does_not_matter() {
    let config = HesiodConfig::new("# hesiod\nrhs=.example.org\n\nlhs=.ns\n").unwrap();
    assert_eq!(config.lhs(), ".ns");
    assert_eq!(config.rhs(), ".example.org");
    assert_eq!(config.domain(), ".ns.example.org");
}

#[test]
fn first_value_counts() {
    let config = HesiodConfig::new("lhs=a\nlhs=b\nrhs=c\nrhs=d\n").unwrap();
    assert_eq!(config.lhs(), "a");
    assert_eq!(config.rhs(), "c");
}

#[test]
fn last_character_goes_also_without_line_feed() {
    let config = HesiodConfig::new("lhs=foo\nrhs=.bar.com").unwrap();
    assert_eq!(config.lhs(), "foo");
    assert_eq!(config.rhs(), ".bar.co");
}

#[test]
fn carriage_return_stays_in_the_value() {
    let config = HesiodConfig::new("lhs=foo\r\nrhs=bar\r\n").unwrap();
    assert_eq!(config.lhs(), "foo\r");
    assert_eq!(config.rhs(), "bar\r");
}

#[test]
fn line_without_a_value_is_passed_over() {
    let config = HesiodConfig::new("lhs=\nlhs=foo\nrhs=x\n").unwrap();
    assert_eq!(config.lhs(), "foo");
    assert_eq!(config.rhs(), "x");
    assert_eq!(HesiodConfig::new("lhs=\nrhs=x\n"), Err(ConfigError::MissingField));
    // The only character after the key is the one that is taken off.
    assert_eq!(HesiodConfig::new("lhs=a\nrhs=b"), Err(ConfigError::MissingField));
}

#[test]
fn key_must_start_the_line() {
    assert_eq!(HesiodConfig::new(" lhs=foo\nrhs=bar\n"), Err(ConfigError::MissingField));
    assert_eq!(HesiodConfig::new("xlhs=foo\nrhs=bar\n"), Err(ConfigError::MissingField));
    assert_eq!(HesiodConfig::new("LHS=foo\nrhs=bar\n"), Err(ConfigError::MissingField));
}

#[test]
fn missing_field_is_an_error() {
    assert_eq!(HesiodConfig::new(""), Err(ConfigError::MissingField));
    assert_eq!(HesiodConfig::new("lhs=foo\n"), Err(ConfigError::MissingField));
    assert_eq!(HesiodConfig::new("rhs=.bar.com\n"), Err(ConfigError::MissingField));
    assert_eq!(HesiodConfig::new("hs=x\nclasses=IN,HS\n"), Err(ConfigError::MissingField));
}

#[test]
fn value_may_hold_more_than_ascii() {
    let config = HesiodConfig::new("lhs=\u{e9}t\u{e9}\nrhs=.\u{20ac}\n").unwrap();
    assert_eq!(config.lhs(), "\u{e9}t\u{e9}");
    assert_eq!(config.rhs(), ".\u{20ac}");
}

#[test]
fn unreadable_source_is_an_error() {
    assert_eq!(HesiodConfig::from_source(None), Err(ConfigError::Unreadable));
    let config = HesiodConfig::from_source(Some("lhs=foo\nrhs=.bar.com\n")).unwrap();
    assert_eq!(config.domain(), "foo.bar.com");
    assert_eq!(HesiodConfig::from_source(Some("lhs=foo\n")), Err(ConfigError::MissingField));
}

#[test]
fn address_is_name_label_and_domain() {
    let config = HesiodConfig::new("lhs=foo\nrhs=.bar.com\n").unwrap();
    assert_eq!(build_address("alice", &config), "alice.sshfoo.bar.com");
    assert_eq!(build_address("", &config), ".sshfoo.bar.com");
    assert_eq!(build_address("a b/\u{e9}", &config), "a b/\u{e9}.sshfoo.bar.com");
}

#[test]
fn clone_keeps_both_parts() {
    let config = HesiodConfig::new("lhs=.ns\nrhs=.example.org\n").unwrap();
    assert_eq!(config.clone(), config);
}
