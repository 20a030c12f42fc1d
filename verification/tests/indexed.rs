//! Key lines from records that carry priorities, and priorities for the
//! chunks of key lines.

use authorized_dns_keys::codec::{encode, TxtChunk};
use authorized_dns_keys::indexed::{
    assign_priorities, decode_indexed, is_complete, key_lines, order_payloads,
    PriorityIndexedRecord,
};
use authorized_dns_keys::priority::priority_text;
use authorized_dns_keys::records::FormatError;

fn wire(priority: &str, payload: &str) -> Vec<Vec<u8>> {
    vec![priority.as_bytes().to_vec(), payload.as_bytes().to_vec()]
}

fn held(priority: i8, payload: &str) -> PriorityIndexedRecord {
    PriorityIndexedRecord { priority, payload: payload.to_string() }
}

fn strings(texts: &[&str]) -> Vec<String> {
    texts.iter().map(|t| t.to_string()).collect()
}

#[test]
fn record_is_priority_and_payload() {
    assert_eq!(PriorityIndexedRecord::parse(&wire("12", "ssh-rsa AAAA")), Ok(held(12, "ssh-rsa AAAA")));
    assert_eq!(PriorityIndexedRecord::parse(&wire("-3", "")), Ok(held(-3, "")));
}

#[test]
fn record_errors_come_in_order() {
    let bad_text = vec![0xc3u8, 0x28];
    assert_eq!(PriorityIndexedRecord::parse(&Vec::new()), Err(FormatError::MalformedRecord));
    assert_eq!(PriorityIndexedRecord::parse(&vec![b"1".to_vec()]), Err(FormatError::MalformedRecord));
    assert_eq!(
        PriorityIndexedRecord::parse(&vec![b"x".to_vec(), bad_text.clone(), b"y".to_vec()]),
        Err(FormatError::MalformedRecord)
    );
    assert_eq!(
        PriorityIndexedRecord::parse(&vec![b"x".to_vec(), bad_text.clone()]),
        Err(FormatError::InvalidPriority)
    );
    assert_eq!(
        PriorityIndexedRecord::parse(&vec![b"1".to_vec(), bad_text]),
        Err(FormatError::UnexpectedResponseEncoding)
    );
}

#[test]
fn payloads_come_out_in_the_order_of_their_priorities() {
    let response = vec![wire("2", "c"), wire("0", "a"), wire("3", "d"), wire("1", "b")];
    assert_eq!(decode_indexed(&response), Ok(strings(&["a", "b", "c", "d"])));
}

#[test]
fn priorities_may_be_sparse_and_negative() {
    let response = vec![wire("100", "z"), wire("-128", "a"), wire("+7", "m"), wire("-1", "k"), wire("127", "end")];
    assert_eq!(decode_indexed(&response), Ok(strings(&["a", "k", "m", "z", "end"])));
    assert_eq!(decode_indexed(&Vec::new()), Ok(Vec::new()));
}

#[test]
fn later_record_of_one_priority_counts() {
    let response = vec![wire("1", "old"), wire("0", "first"), wire("1", "new"), wire("01", "newest")];
    let payloads = decode_indexed(&response).unwrap();
    assert_eq!(payloads.len(), 2);
    assert_eq!(payloads, strings(&["first", "newest"]));
}

#[test]
fn response_of_257_records_is_too_large() {
    let mut response = Vec::new();
    for i in 0..257 {
        response.push(wire(&format!("{}", i % 100), "chunk"));
    }
    assert_eq!(decode_indexed(&response), Err(FormatError::CapacityExceeded));
    response[3] = wire("bad", "chunk");
    assert_eq!(decode_indexed(&response), Err(FormatError::CapacityExceeded));
}

#[test]
fn response_of_256_records_is_read() {
    let mut response = Vec::new();
    let mut expected = Vec::new();
    for p in (i8::MIN..=i8::MAX).rev() {
        response.push(wire(&format!("{}", p), &format!("chunk {}", p)));
    }
    for p in i8::MIN..=i8::MAX {
        expected.push(format!("chunk {}", p));
    }
    assert_eq!(response.len(), 256);
    assert_eq!(decode_indexed(&response), Ok(expected));
}

#[test]
fn first_bad_record_gives_the_error() {
    let bad_text = vec![0xffu8];
    let response = vec![
        wire("0", "a"),
        vec![b"1".to_vec(), bad_text],
        wire("x", "b"),
        vec![b"2".to_vec()],
    ];
    assert_eq!(decode_indexed(&response), Err(FormatError::UnexpectedResponseEncoding));
    let response = vec![wire("0", "a"), wire("128", "b"), vec![b"2".to_vec()]];
    assert_eq!(decode_indexed(&response), Err(FormatError::InvalidPriority));
    let response = vec![vec![b"2".to_vec()], wire("128", "b")];
    assert_eq!(decode_indexed(&response), Err(FormatError::MalformedRecord));
}

#[test]
fn held_records_are_ordered() {
    let records = vec![held(5, "e"), held(-5, "a"), held(0, "c"), held(5, "f")];
    assert_eq!(order_payloads(&records), strings(&["a", "c", "f"]));
    assert_eq!(order_payloads(&Vec::new()), Vec::<String>::new());
}

#[test]
fn guess_at_the_end_of_a_line() {
    assert!(is_complete("ssh-ed25519 AAAAC3Nz... alice@host"));
    assert!(is_complete("AAAAB3Nz"));
    assert!(is_complete(""));
    assert!(is_complete("ssh"));
    assert!(is_complete("xssh-rsa"));
    assert!(!is_complete("ssh-rsa"));
    assert!(!is_complete("ssh-rsaAAAAB3Nz"));
    assert!(is_complete(&format!("ssh-rsa {}", "A".repeat(246))));
    assert!(!is_complete(&format!("ssh-rsa {}", "A".repeat(247))));
    assert!(!is_complete(&"A".repeat(255)));
    assert!(is_complete(&"A".repeat(254)));
    // 127 characters, 254 bytes; one more makes 256.
    assert!(is_complete(&"\u{e9}".repeat(127)));
    assert!(!is_complete(&"\u{e9}".repeat(128)));
}

#[test]
fn payloads_are_joined_up_to_the_end_of_each_line() {
    let full = "A".repeat(255);
    let start = format!("ssh-rsa {}", "B".repeat(247));
    let payloads = vec![
        "ssh-ed25519 AAAA alice@host".to_string(),
        start.clone(),
        full.clone(),
        "CCCC alice@work".to_string(),
        "ssh-dss".to_string(),
    ];
    assert_eq!(
        key_lines(&payloads),
        vec![
            "ssh-ed25519 AAAA alice@host".to_string(),
            format!("{}{}CCCC alice@work", start, full),
            "ssh-dss".to_string(),
        ]
    );
    assert_eq!(key_lines(&Vec::new()), Vec::<String>::new());
    assert_eq!(key_lines(&vec![full.clone()]), vec![full]);
}

#[test]
fn priorities_count_through_all_lines_and_skip_one_after_each() {
    let lines = vec![
        vec![TxtChunk::new("a0").unwrap(), TxtChunk::new("a1").unwrap()],
        vec![TxtChunk::new("b0").unwrap()],
        Vec::new(),
        vec![TxtChunk::new("c0").unwrap(), TxtChunk::new("c1").unwrap(), TxtChunk::new("c2").unwrap()],
    ];
    assert_eq!(
        assign_priorities(&lines),
        Ok(vec![held(0, "a0"), held(1, "a1"), held(3, "b0"), held(6, "c0"), held(7, "c1"), held(8, "c2")])
    );
    assert_eq!(assign_priorities(&Vec::new()), Ok(Vec::new()));
}

#[test]
fn priorities_end_at_127() {
    let line = || vec![TxtChunk::new("k").unwrap()];
    let lines: Vec<Vec<TxtChunk>> = (0..64).map(|_| line()).collect();
    let records = assign_priorities(&lines).unwrap();
    assert_eq!(records.len(), 64);
    assert_eq!(records[63], held(126, "k"));
    let lines: Vec<Vec<TxtChunk>> = (0..65).map(|_| line()).collect();
    assert_eq!(assign_priorities(&lines), Err(FormatError::CapacityExceeded));
    let chunks: Vec<TxtChunk> = (0..128).map(|_| TxtChunk::new("k").unwrap()).collect();
    assert_eq!(assign_priorities(&vec![chunks]).unwrap().len(), 128);
    let chunks: Vec<TxtChunk> = (0..129).map(|_| TxtChunk::new("k").unwrap()).collect();
    assert_eq!(assign_priorities(&vec![chunks]), Err(FormatError::CapacityExceeded));
    // Lines without chunks use up priorities too.
    let mut lines: Vec<Vec<TxtChunk>> = (0..128).map(|_| Vec::new()).collect();
    assert_eq!(assign_priorities(&lines), Ok(Vec::new()));
    lines.push(line());
    assert_eq!(assign_priorities(&lines), Err(FormatError::CapacityExceeded));
}

#[test]
fn published_chunks_come_back_as_lines_from_any_order() {
    let first = format!("ssh-rsa {} alice@host", "A".repeat(600));
    let second = "ssh-ed25519 AAAAC3Nz... alice@work".to_string();
    let lines = vec![encode(&first), encode(&second)];
    let records = assign_priorities(&lines).unwrap();
    let priorities: Vec<i8> = records.iter().map(|r| r.priority).collect();
    assert_eq!(priorities, vec![0, 1, 2, 4]);
    let mut response: Vec<Vec<Vec<u8>>> = records
        .iter()
        .map(|r| vec![priority_text(r.priority).into_bytes(), r.payload.clone().into_bytes()])
        .collect();
    response.reverse();
    response.swap(0, 2);
    let payloads = decode_indexed(&response).unwrap();
    assert_eq!(key_lines(&payloads), vec![first, second]);
}
