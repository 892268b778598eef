use luthor::codec::{decode, encode, CodecError};

fn bytes(s: &str) -> Vec<u8> {
    s.as_bytes().to_vec()
}

#[test]
fn encode_keeps_safe_literals() {
    let r = encode(&bytes("abc")).unwrap();
    assert_eq!(r, bytes("abc"));
}

#[test]
fn encode_escapes_space_and_colon() {
    // the end-to-end scenario: "a b:c" becomes "ax20bx3ac"
    let r = encode(&bytes("a b:c")).unwrap();
    assert_eq!(r, bytes("ax20bx3ac"));
}

#[test]
fn encode_escapes_reserved_bytes() {
    assert_eq!(encode(&bytes("x")).unwrap(), bytes("x78"));
    assert_eq!(encode(&bytes("\\")).unwrap(), bytes("x5c"));
    assert_eq!(encode(&bytes(":")).unwrap(), bytes("x3a"));
    assert_eq!(encode(&bytes("\n")).unwrap(), bytes("x0a"));
    assert_eq!(encode(&vec![0x00, 0xff]).unwrap(), bytes("x00xff"));
}

#[test]
fn encode_empty_fails() {
    assert_eq!(encode(&Vec::new()), Err(CodecError::EmptyInput));
}

#[test]
fn decode_round_trips_encode() {
    // decode(encode(s)) == s over every kind of byte
    let mut s: Vec<u8> = Vec::new();
    for b in 0..=255u8 {
        s.push(b);
    }
    let enc = encode(&s).unwrap();
    assert_eq!(decode(&enc).unwrap(), s);
}

#[test]
fn encode_round_trips_decode() {
    // encode(decode(t)) == t for encoder-produced text
    let t = bytes("ax20bx3ac");
    let dec = decode(&t).unwrap();
    assert_eq!(dec, bytes("a b:c"));
    assert_eq!(encode(&dec).unwrap(), t);
}

#[test]
fn decode_accepts_literal_space() {
    assert_eq!(decode(&bytes("a b")).unwrap(), bytes("a b"));
}

#[test]
fn decode_accepts_uppercase_hex() {
    assert_eq!(decode(&bytes("x41")).unwrap(), bytes("A"));
    assert_eq!(decode(&bytes("x4a")).unwrap(), bytes("J"));
}

#[test]
fn decode_truncated_escape_fails() {
    assert_eq!(decode(&bytes("x")), Err(CodecError::TruncatedEscape));
    assert_eq!(decode(&bytes("xA")), Err(CodecError::TruncatedEscape));
}

#[test]
fn decode_bad_hex_fails() {
    assert_eq!(
        decode(&bytes("x1G")),
        Err(CodecError::InvalidEscape { byte: b'G' })
    );
}

#[test]
fn decode_forbidden_literal_fails() {
    // the end-to-end scenario: ':' is reserved
    assert_eq!(
        decode(&bytes("a:b")),
        Err(CodecError::ForbiddenLiteral { byte: b':' })
    );
    assert_eq!(
        decode(&bytes("a\\b")),
        Err(CodecError::ForbiddenLiteral { byte: b'\\' })
    );
    assert_eq!(
        decode(&bytes("a\tb")),
        Err(CodecError::ForbiddenLiteral { byte: b'\t' })
    );
}

#[test]
fn decode_empty_is_empty() {
    assert_eq!(decode(&Vec::new()).unwrap(), Vec::<u8>::new());
}
