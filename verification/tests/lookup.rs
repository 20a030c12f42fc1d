//! Key lines from a resolver's answer.

use authorized_dns_keys::lookup::indexed_ssh_keys;
use authorized_dns_keys::records::{FormatError, TxtLookupExt};
use std::sync::Arc;
use trust_dns_resolver::lookup::{Lookup, TxtLookup};
use trust_dns_resolver::proto::op::Query;
use trust_dns_resolver::proto::rr::rdata::{A, TXT};
use trust_dns_resolver::proto::rr::{RData, Record, RecordType};
use trust_dns_resolver::Name;

fn answer(rdata: Vec<RData>) -> TxtLookup {
    let name = Name::from_ascii("alice.sshfoo.bar.com.").unwrap();
    let records: Vec<Record> =
        rdata.into_iter().map(|data| Record::from_rdata(name.clone(), 300, data)).collect();
    TxtLookup::from(Lookup::new_with_max_ttl(Query::query(name, RecordType::TXT), Arc::from(records)))
}

fn txt(strings: &[&str]) -> RData {
    RData::TXT(TXT::new(strings.iter().map(|s| s.to_string()).collect()))
}

fn txt_bytes(strings: &[&[u8]]) -> RData {
    RData::TXT(TXT::from_bytes(strings.to_vec()))
}

#[test]
fn keys_of_an_answer() {
    let lookup = answer(vec![
        txt(&["ssh-ed25519 AAAAC3Nz... alice@host"]),
        txt(&["ssh-rsa AAAA", "B3Nz", " alice@work"]),
    ]);
    assert_eq!(
        lookup.public_ssh_keys(),
        Ok(vec![
            "ssh-ed25519 AAAAC3Nz... alice@host".to_string(),
            "ssh-rsa AAAAB3Nz alice@work".to_string(),
        ])
    );
}

#[test]
fn keys_of_an_empty_answer() {
    assert_eq!(answer(Vec::new()).public_ssh_keys(), Ok(Vec::new()));
}

#[test]
fn only_txt_records_are_read() {
    let lookup = answer(vec![txt(&["first"]), RData::A(A::new(127, 0, 0, 1)), txt(&["second"])]);
    assert_eq!(lookup.public_ssh_keys(), Ok(vec!["first".to_string(), "second".to_string()]));
}

#[test]
fn answer_that_is_not_text_is_refused() {
    let lookup = answer(vec![txt(&["fine"]), txt_bytes(&[b"ssh-rsa ", &[0xff, 0xfe]])]);
    assert_eq!(lookup.public_ssh_keys(), Err(FormatError::UnexpectedResponseEncoding));
}

#[test]
fn keys_of_an_answer_with_priorities() {
    let long = "A".repeat(255);
    let lookup = answer(vec![
        txt(&["3", "ssh-rsa BBBB bob@host"]),
        txt(&["1", "CCCC alice@host"]),
        txt(&["0", long.as_str()]),
    ]);
    assert_eq!(
        indexed_ssh_keys(&lookup),
        Ok(vec![format!("{}CCCC alice@host", long), "ssh-rsa BBBB bob@host".to_string()])
    );
}

#[test]
fn answer_with_a_bad_priority_is_refused() {
    let lookup = answer(vec![txt(&["0", "ssh-rsa AAAA a@b"]), txt(&["one", "ssh-rsa BBBB c@d"])]);
    assert_eq!(indexed_ssh_keys(&lookup), Err(FormatError::InvalidPriority));
    let lookup = answer(vec![txt(&["ssh-rsa AAAA a@b"])]);
    assert_eq!(indexed_ssh_keys(&lookup), Err(FormatError::MalformedRecord));
}
