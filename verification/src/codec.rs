//! Alphabet encoding: a bijective codec between arbitrary byte strings and
//! safe printable text. A byte is kept literally when it lies in the ASCII
//! graphic range with `:`, `\` and `x` removed; every other byte becomes the
//! three-byte escape `x` followed by two lowercase hex digits.

use vstd::prelude::*;

verus! {

/// Why an encode or decode call failed.
#[derive(Debug, Clone, Copy, PartialEq, Eq, Structural)]
pub enum CodecError {
    /// `encode` was handed an empty byte string.
    EmptyInput,
    /// `decode` met an `x` with fewer than two bytes after it.
    TruncatedEscape,
    /// `decode` met an `x` escape whose content is not a hex digit.
    InvalidEscape { byte: u8 },
    /// `decode` met a literal byte that no encoding may contain.
    ForbiddenLiteral { byte: u8 },
}

/// A byte that may stand literally in encoded text: the ASCII graphic range
/// `0x21..=0x7e` minus `:` (0x3a), `\` (0x5c) and `x` (0x78).
pub open spec fn is_safe_literal(b: u8) -> bool {
    ||| 0x21 <= b <= 0x39
    ||| 0x3b <= b <= 0x5b
    ||| 0x5d <= b <= 0x77
    ||| 0x79 <= b <= 0x7e
}

/// The lowercase hex digit for a value below 16.
pub open spec fn hex_digit(n: u8) -> u8 {
    if n < 10 {
        (0x30 + n) as u8
    } else {
        (0x57 + n) as u8
    }
}

/// The value of a hex digit byte; uppercase and lowercase are both read.
pub open spec fn hex_val(b: u8) -> Option<u8> {
    if 0x30 <= b <= 0x39 {
        Some((b - 0x30) as u8)
    } else if 0x61 <= b <= 0x66 {
        Some((b - 0x61 + 10) as u8)
    } else if 0x41 <= b <= 0x46 {
        Some((b - 0x41 + 10) as u8)
    } else {
        None
    }
}

/// What one byte encodes to: itself when safe, else `x` plus two hex digits.
pub open spec fn encode_byte(b: u8) -> Seq<u8> {
    if is_safe_literal(b) {
        seq![b]
    } else {
        seq![0x78u8, hex_digit(b / 16), hex_digit(b % 16)]
    }
}

/// What a byte string encodes to: each byte's encoding, concatenated.
pub open spec fn encode_bytes(s: Seq<u8>) -> Seq<u8>
    decreases s.len(),
{
    if s.len() == 0 {
        Seq::empty()
    } else {
        encode_byte(s[0]) + encode_bytes(s.drop_first())
    }
}

/// What an encoded string decodes to, or the error met first. A literal space
/// (0x20) is accepted on decode even though encode never produces one.
pub open spec fn decode_bytes(t: Seq<u8>) -> Result<Seq<u8>, CodecError>
    decreases t.len(),
{
    if t.len() == 0 {
        Ok(Seq::empty())
    } else if t[0] == 0x78 {
        if t.len() < 3 {
            Err(CodecError::TruncatedEscape)
        } else if hex_val(t[1]) is None {
            Err(CodecError::InvalidEscape { byte: t[1] })
        } else if hex_val(t[2]) is None {
            Err(CodecError::InvalidEscape { byte: t[2] })
        } else {
            match decode_bytes(t.skip(3)) {
                Ok(rest) => Ok(
                    seq![(hex_val(t[1])->Some_0 * 16 + hex_val(t[2])->Some_0) as u8] + rest,
                ),
                Err(e) => Err(e),
            }
        }
    } else if is_safe_literal(t[0]) || t[0] == 0x20 {
        match decode_bytes(t.skip(1)) {
            Ok(rest) => Ok(seq![t[0]] + rest),
            Err(e) => Err(e),
        }
    } else {
        Err(CodecError::ForbiddenLiteral { byte: t[0] })
    }
}

/// Executable test of `is_safe_literal`.
pub fn byte_is_safe_literal(b: u8) -> (r: bool)
    ensures
        r == is_safe_literal(b),
{
    (0x21 <= b && b <= 0x39) || (0x3b <= b && b <= 0x5b) || (0x5d <= b && b <= 0x77) || (0x79 <= b
        && b <= 0x7e)
}

fn hex_digit_of(n: u8) -> (r: u8)
    requires
        n < 16,
    ensures
        r == hex_digit(n),
{
    if n < 10 {
        0x30 + n
    } else {
        0x57 + n
    }
}

fn hex_val_of(b: u8) -> (r: Option<u8>)
    ensures
        r == hex_val(b),
{
    if 0x30 <= b && b <= 0x39 {
        Some(b - 0x30)
    } else if 0x61 <= b && b <= 0x66 {
        Some(b - 0x61 + 10)
    } else if 0x41 <= b && b <= 0x46 {
        Some(b - 0x41 + 10)
    } else {
        None
    }
}

proof fn lemma_encode_bytes_push(s: Seq<u8>, i: int)
    requires
        0 <= i < s.len(),
    ensures
        encode_bytes(s.take(i + 1)) == encode_bytes(s.take(i)) + encode_byte(s[i]),
    decreases i,
{
    let a = s.take(i + 1);
    let b = s.take(i);
    if i == 0 {
        assert(a.drop_first() =~= Seq::<u8>::empty());
        assert(encode_bytes(b) + encode_byte(s[0]) =~= encode_byte(a[0]) + encode_bytes(
            a.drop_first(),
        ));
    } else {
        lemma_encode_bytes_push(s.drop_first(), i - 1);
        assert(a.drop_first() =~= s.drop_first().take(i));
        assert(b.drop_first() =~= s.drop_first().take(i - 1));
        assert(encode_bytes(a) =~= encode_bytes(b) + encode_byte(s[i]));
    }
}

/// Encode a byte string. Fails exactly on empty input; otherwise returns the
/// concatenation of each byte's encoding.
pub fn encode(decoded_token: &Vec<u8>) -> (r: Result<Vec<u8>, CodecError>)
    ensures
        r is Err <==> decoded_token@.len() == 0,
        r is Err ==> r->Err_0 == CodecError::EmptyInput,
        r is Ok ==> r->Ok_0@ == encode_bytes(decoded_token@),
{
    if decoded_token.len() == 0 {
        return Err(CodecError::EmptyInput);
    }
    let mut encoded_token: Vec<u8> = Vec::new();
    let mut index: usize = 0;
    while index < decoded_token.len()
        invariant
            index <= decoded_token@.len(),
            encoded_token@ == encode_bytes(decoded_token@.take(index as int)),
        decreases decoded_token@.len() - index,
    {
        let b = decoded_token[index];
        if byte_is_safe_literal(b) {
            encoded_token.push(b);
        } else {
            encoded_token.push(0x78);
            encoded_token.push(hex_digit_of(b / 16));
            encoded_token.push(hex_digit_of(b % 16));
        }
        proof {
            lemma_encode_bytes_push(decoded_token@, index as int);
        }
        index = index + 1;
    }
    proof {
        assert(decoded_token@.take(index as int) =~= decoded_token@);
    }
    Ok(encoded_token)
}

/// Decode an encoded string, reversing `encode`; a literal space is accepted
/// as itself. Fails exactly where `decode_bytes` names an error.
pub fn decode(encoded_token: &Vec<u8>) -> (r: Result<Vec<u8>, CodecError>)
    ensures
        r is Ok <==> decode_bytes(encoded_token@) is Ok,
        r is Ok ==> r->Ok_0@ == decode_bytes(encoded_token@)->Ok_0,
        r is Err ==> r->Err_0 == decode_bytes(encoded_token@)->Err_0,
{
    let t = encoded_token;
    let mut decoded_token: Vec<u8> = Vec::new();
    let mut index: usize = 0;
    proof {
        assert(t@.skip(0) =~= t@);
        if decode_bytes(t@) is Ok {
            assert(decoded_token@ + decode_bytes(t@)->Ok_0 =~= decode_bytes(t@)->Ok_0);
        }
    }
    while index < t.len()
        invariant
            t@ == encoded_token@,
            index <= t@.len(),
            decode_bytes(t@) == (match decode_bytes(t@.skip(index as int)) {
                Ok(rest) => Ok::<Seq<u8>, CodecError>(decoded_token@ + rest),
                Err(e) => Err(e),
            }),
        decreases t@.len() - index,
    {
        let ghost suffix = t@.skip(index as int);
        assert(suffix[0] == t@[index as int]);
        if t[index] == 0x78 {
            if t.len() - index < 3 {
                assert(suffix.len() < 3);
                assert(decode_bytes(suffix) == Err::<Seq<u8>, CodecError>(
                    CodecError::TruncatedEscape,
                ));
                return Err(CodecError::TruncatedEscape);
            }
            assert(suffix[1] == t@[index as int + 1] && suffix[2] == t@[index as int + 2]);
            let hi = match hex_val_of(t[index + 1]) {
                Some(h) => h,
                None => {
                    return Err(CodecError::InvalidEscape { byte: t[index + 1] });
                },
            };
            let lo = match hex_val_of(t[index + 2]) {
                Some(l) => l,
                None => {
                    return Err(CodecError::InvalidEscape { byte: t[index + 2] });
                },
            };
            let ghost prev = decoded_token@;
            decoded_token.push(hi * 16 + lo);
            proof {
                assert(suffix.skip(3) =~= t@.skip(index as int + 3));
                let tail = decode_bytes(t@.skip(index as int + 3));
                if tail is Ok {
                    assert(prev + (seq![(hi * 16 + lo) as u8] + tail->Ok_0) =~= decoded_token@
                        + tail->Ok_0);
                }
            }
            index = index + 3;
        } else {
            let c = t[index];
            if byte_is_safe_literal(c) || c == 0x20 {
                let ghost prev = decoded_token@;
                decoded_token.push(c);
                proof {
                    assert(suffix.skip(1) =~= t@.skip(index as int + 1));
                    let tail = decode_bytes(t@.skip(index as int + 1));
                    if tail is Ok {
                        assert(prev + (seq![c] + tail->Ok_0) =~= decoded_token@ + tail->Ok_0);
                    }
                }
            } else {
                return Err(CodecError::ForbiddenLiteral { byte: c });
            }
            index = index + 1;
        }
    }
    proof {
        assert(t@.skip(index as int) =~= Seq::<u8>::empty());
    }
    Ok(decoded_token)
}

/// Decoding inverts encoding: every byte string comes back unchanged from a
/// decode of its encoding.
pub proof fn lemma_decode_of_encode(s: Seq<u8>)
    ensures
        decode_bytes(encode_bytes(s)) is Ok,
        decode_bytes(encode_bytes(s))->Ok_0 == s,
    decreases s.len(),
{
    if s.len() == 0 {
    } else {
        let b = s[0];
        let rest = s.drop_first();
        let t = encode_bytes(s);
        lemma_decode_of_encode(rest);
        if is_safe_literal(b) {
            assert(t[0] == b);
            assert(t.skip(1) =~= encode_bytes(rest));
            assert(seq![b] + decode_bytes(encode_bytes(rest))->Ok_0 =~= s);
        } else {
            assert(t[0] == 0x78);
            assert(t[1] == hex_digit(b / 16) && t[2] == hex_digit(b % 16));
            assert(hex_val(hex_digit(b / 16)) == Some(b / 16));
            assert(hex_val(hex_digit(b % 16)) == Some(b % 16));
            assert(b / 16 * 16 + b % 16 == b) by {
                vstd::arithmetic::div_mod::lemma_fundamental_div_mod(b as int, 16);
            }
            assert(t.skip(3) =~= encode_bytes(rest));
            assert(seq![b] + decode_bytes(encode_bytes(rest))->Ok_0 =~= s);
        }
    }
}

/// Encoding inverts decoding on every string that the encoder can produce:
/// such a string decodes, and encoding the result gives the string back.
pub proof fn lemma_encode_of_decode(t: Seq<u8>)
    requires
        exists|s: Seq<u8>| t == encode_bytes(s),
    ensures
        decode_bytes(t) is Ok,
        encode_bytes(decode_bytes(t)->Ok_0) == t,
{
    let s = choose|s: Seq<u8>| t == encode_bytes(s);
    lemma_decode_of_encode(s);
}

} // verus!
