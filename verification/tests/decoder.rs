//! The byte decoder: multi-byte characters, truncation and malformed
//! sequences.

use repline::iter::{encode_char, BadUnicode, Chars};

#[test]
fn ascii_decodes_one_byte_each() {
    let mut ch = Chars::new(b"ab".to_vec());
    assert_eq!(ch.next(), Some(Ok('a')));
    assert_eq!(ch.next(), Some(Ok('b')));
    assert_eq!(ch.next(), None);
}

#[test]
fn two_byte_character_decodes() {
    // U+00E9, latin small letter e with acute
    let mut ch = Chars::new(vec![0xC3, 0xA9]);
    assert_eq!(ch.next(), Some(Ok('\u{e9}')));
    assert_eq!(ch.next(), None);
}

#[test]
fn three_byte_character_decodes() {
    // U+20AC, the euro sign
    let mut ch = Chars::new(vec![0xE2, 0x82, 0xAC]);
    assert_eq!(ch.next(), Some(Ok('\u{20ac}')));
}

#[test]
fn four_byte_character_decodes() {
    // U+1F600
    let mut ch = Chars::new(vec![0xF0, 0x9F, 0x98, 0x80]);
    assert_eq!(ch.next(), Some(Ok('\u{1f600}')));
}

#[test]
fn encode_decode_round_trip() {
    for c in ['a', '\n', '\u{7f}', '\u{e9}', '\u{20ac}', '\u{10348}', '\u{1f600}', char::MAX] {
        let bytes = encode_char(c);
        let mut ch = Chars::new(bytes);
        assert_eq!(ch.next(), Some(Ok(c)));
        assert_eq!(ch.next(), None);
    }
}

#[test]
fn truncated_sequence_is_exhaustion() {
    // a two-byte encoding cut short by the end of the bytes
    let mut ch = Chars::new(vec![0xC3]);
    assert_eq!(ch.next(), None);
    // a four-byte encoding cut short after three bytes
    let mut ch = Chars::new(vec![0xF0, 0x9F, 0x98]);
    assert_eq!(ch.next(), None);
}

#[test]
fn bad_continuation_carries_partial_value() {
    // 0xC3 contributes its five data bits (0x03); 0x28 is no continuation
    let mut ch = Chars::new(vec![0xC3, 0x28, b'x']);
    assert_eq!(ch.next(), Some(Err(BadUnicode(0x03))));
    // decoding is not restarted on the offending byte
    assert_eq!(ch.next(), Some(Ok('x')));
}

#[test]
fn surrogate_codepoint_is_malformed() {
    // 0xED 0xA0 0x80 spells U+D800, which no character carries
    let mut ch = Chars::new(vec![0xED, 0xA0, 0x80]);
    assert_eq!(ch.next(), Some(Err(BadUnicode(0xD800))));
}

#[test]
fn invalid_leading_byte_is_malformed() {
    let mut ch = Chars::new(vec![0xFF, b'a']);
    assert_eq!(ch.next(), Some(Err(BadUnicode(0xFF))));
    assert_eq!(ch.next(), Some(Ok('a')));
}

#[test]
fn feed_appends_bytes() {
    let mut ch = Chars::new(vec![b'h']);
    assert_eq!(ch.next(), Some(Ok('h')));
    assert_eq!(ch.next(), None);
    let mut more = vec![b'i'];
    ch.feed(&mut more);
    assert_eq!(ch.next(), Some(Ok('i')));
}
