//! Splitting key lines into chunks and joining them again.

use authorized_dns_keys::codec::{decode, encode, TxtChunk};

fn texts(chunks: &[TxtChunk]) -> Vec<String> {
    chunks.iter().map(|c| c.as_str().to_string()).collect()
}

#[test]
fn short_line_is_one_chunk() {
    let line = "ssh-ed25519 AAAAC3Nz... alice@host";
    let chunks = encode(line);
    assert_eq!(chunks.len(), 1);
    assert_eq!(chunks[0].as_str(), line);
}

#[test]
fn empty_line_is_one_empty_chunk() {
    let chunks = encode("");
    assert_eq!(chunks.len(), 1);
    assert_eq!(chunks[0].as_str(), "");
    assert_eq!(chunks[0].len(), 0);
    assert_eq!(decode(&chunks), "");
}

#[test]
fn line_of_300_bytes_is_cut_at_255() {
    let line = "a".repeat(300);
    let chunks = encode(&line);
    assert_eq!(chunks.len(), 2);
    assert_eq!(chunks[0].len(), 255);
    assert_eq!(chunks[1].len(), 45);
    assert_eq!(chunks[0].as_str(), &line[..255]);
    assert_eq!(chunks[1].as_str(), &line[255..]);
    assert_eq!(decode(&chunks), line);
}

#[test]
fn line_of_255_bytes_is_one_chunk() {
    let line = "k".repeat(255);
    let chunks = encode(&line);
    assert_eq!(texts(&chunks), vec![line]);
}

#[test]
fn line_of_256_bytes_is_two_chunks() {
    let line = "k".repeat(256);
    let chunks = encode(&line);
    assert_eq!(texts(&chunks), vec!["k".repeat(255), "k".to_string()]);
}

#[test]
fn line_of_510_bytes_is_two_full_chunks() {
    let line = "x".repeat(510);
    let chunks = encode(&line);
    assert_eq!(texts(&chunks), vec!["x".repeat(255), "x".repeat(255)]);
}

#[test]
fn two_byte_characters_are_not_cut() {
    // 128 characters of two bytes each: 256 bytes.
    let line = "\u{e9}".repeat(128);
    let chunks = encode(&line);
    assert_eq!(chunks.len(), 2);
    assert_eq!(chunks[0].as_str(), "\u{e9}".repeat(127));
    assert_eq!(chunks[0].len(), 254);
    assert_eq!(chunks[1].as_str(), "\u{e9}");
    assert_eq!(chunks[1].len(), 2);
}

#[test]
fn four_byte_character_moves_to_the_next_chunk() {
    // One byte, then 64 characters of four bytes each: 257 bytes.
    let line = format!("a{}", "\u{1f600}".repeat(64));
    let chunks = encode(&line);
    assert_eq!(chunks.len(), 2);
    assert_eq!(chunks[0].as_str(), format!("a{}", "\u{1f600}".repeat(63)));
    assert_eq!(chunks[0].len(), 253);
    assert_eq!(chunks[1].as_str(), "\u{1f600}");
}

#[test]
fn mixed_widths_round_trip_within_the_limit() {
    let unit = "key \u{e9}\u{20ac}\u{1f600} comment\u{7ff}\u{800}\u{ffff}\u{10000} ";
    let line = unit.repeat(40);
    let chunks = encode(&line);
    assert!(chunks.len() > 1);
    let mut bytes: Vec<u8> = Vec::new();
    for chunk in &chunks {
        assert!(chunk.len() <= 255);
        assert_eq!(chunk.len(), chunk.as_str().len());
        bytes.extend_from_slice(chunk.as_str().as_bytes());
    }
    assert_eq!(bytes, line.as_bytes());
    assert_eq!(decode(&chunks), line);
}

#[test]
fn every_chunk_but_the_last_is_full() {
    let unit = "\u{20ac}ab\u{1f600}";
    let line = unit.repeat(100);
    let chunks = encode(&line);
    for pair in chunks.windows(2) {
        let next = pair[1].as_str().chars().next().unwrap();
        assert!(pair[0].len() + next.len_utf8() > 255);
    }
}

#[test]
fn decode_joins_in_the_order_given() {
    let a = TxtChunk::new("ssh-rsa AAA").unwrap();
    let b = TxtChunk::new("BBB user").unwrap();
    assert_eq!(decode(&vec![a.clone(), b.clone()]), "ssh-rsa AAABBB user");
    assert_eq!(decode(&vec![b, a]), "BBB userssh-rsa AAA");
    assert_eq!(decode(&Vec::new()), "");
}

#[test]
fn chunk_of_256_bytes_is_refused() {
    assert!(TxtChunk::new(&"a".repeat(255)).is_some());
    assert!(TxtChunk::new(&"a".repeat(256)).is_none());
    // 128 characters, 256 bytes.
    assert!(TxtChunk::new(&"\u{e9}".repeat(128)).is_none());
    assert_eq!(TxtChunk::new("abc").unwrap().as_str(), "abc");
    assert_eq!(TxtChunk::new("\u{20ac}").unwrap().len(), 3);
}
