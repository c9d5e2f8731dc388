//! The byte ↔ hex-digit boundary. Turning raw bytes into a hex string and
//! back is delegated to the hex crate; its behaviour is stated exactly
//! here, and everything around the two calls — digit values, nibble
//! pairing, the byte-level round trip — is verified against that
//! statement.

use crate::error::CodecError;
use crate::spiral::nibbles_ok;
use vstd::arithmetic::div_mod::lemma_fundamental_div_mod;
use vstd::prelude::*;

verus! {

/// Whether `c` is an ASCII hex digit, of either case.
pub open spec fn is_hex_digit(c: u8) -> bool {
    (48 <= c <= 57) || (97 <= c <= 102) || (65 <= c <= 70)
}

/// The value of an ASCII hex digit.
pub open spec fn hex_val(c: u8) -> int {
    if 48 <= c <= 57 {
        c - 48
    } else if 97 <= c <= 102 {
        c - 87
    } else {
        c - 55
    }
}

/// The lowercase ASCII digit of a nibble value.
pub open spec fn hex_digit(v: int) -> u8 {
    if v < 10 {
        (48 + v) as u8
    } else {
        (87 + v) as u8
    }
}

/// The nibble sequence of a byte sequence: each byte contributes its high
/// nibble, then its low one, so the sequence is twice as long.
pub open spec fn byte_nibbles(bytes: Seq<u8>) -> Seq<u8> {
    Seq::new(
        (2 * bytes.len()) as nat,
        |i: int|
            if i % 2 == 0 {
                ((bytes[i / 2] as int) / 16) as u8
            } else {
                ((bytes[i / 2] as int) % 16) as u8
            },
    )
}

/// The lowercase hex string of a byte sequence, as ASCII bytes.
pub open spec fn hex_ascii(bytes: Seq<u8>) -> Seq<u8> {
    Seq::new((2 * bytes.len()) as nat, |i: int| hex_digit(byte_nibbles(bytes)[i] as int))
}

/// The bytes an even-length hex-digit sequence decodes to, high digit of
/// each pair first.
pub open spec fn bytes_of_hex(s: Seq<u8>) -> Seq<u8> {
    Seq::new((s.len() / 2) as nat, |i: int| (16 * hex_val(s[2 * i]) + hex_val(s[2 * i + 1])) as u8)
}

/// Relies on hex::encode: each input byte becomes two lowercase hex
/// digits, high nibble first, so the output is exactly twice as long.
#[verifier::external_body]
fn hex_encode_bytes(data: &Vec<u8>) -> (r: Vec<u8>)
    ensures
        r@ == hex_ascii(data@),
{
    hex::encode(data.as_slice()).into_bytes()
}

/// Relies on hex::decode: an odd digit count is rejected first, then any
/// character that is not a hex digit (of either case); otherwise the
/// digits are paired, high digit first.
#[verifier::external_body]
fn hex_decode_bytes(s: &Vec<u8>) -> (r: Result<Vec<u8>, CodecError>)
    ensures
        (r == Err::<Vec<u8>, CodecError>(CodecError::HexOddLength)) <==> s@.len() % 2 != 0,
        (r == Err::<Vec<u8>, CodecError>(CodecError::HexInvalidChar)) <==> (s@.len() % 2 == 0
            && exists|i: int| 0 <= i < s@.len() && !is_hex_digit(#[trigger] s@[i])),
        r matches Err(e) ==> (e == CodecError::HexOddLength || e == CodecError::HexInvalidChar),
        r matches Ok(v) ==> v@ == bytes_of_hex(s@),
{
    match hex::decode(s.as_slice()) {
        Ok(v) => Ok(v),
        Err(hex::FromHexError::OddLength) => Err(CodecError::HexOddLength),
        Err(hex::FromHexError::InvalidHexCharacter { .. }) => Err(CodecError::HexInvalidChar),
        Err(hex::FromHexError::InvalidStringLength) => Err(CodecError::HexInvalidChar),
    }
}

/// Reading a lowercase digit back gives the nibble it was written from.
pub proof fn lemma_hex_digit_val(v: int)
    requires
        0 <= v < 16,
    ensures
        is_hex_digit(hex_digit(v)),
        hex_val(hex_digit(v)) == v,
{
}

/// The nibble values of a sequence of hex digits.
pub fn ascii_to_nibbles(s: &Vec<u8>) -> (r: Vec<u8>)
    requires
        forall|i: int| 0 <= i < s@.len() ==> is_hex_digit(#[trigger] s@[i]),
    ensures
        r@.len() == s@.len(),
        forall|i: int| 0 <= i < s@.len() ==> (#[trigger] r@[i]) as int == hex_val(s@[i]),
        nibbles_ok(r@),
{
    let mut r: Vec<u8> = Vec::new();
    let mut i: usize = 0;
    while i < s.len()
        invariant
            forall|j: int| 0 <= j < s@.len() ==> is_hex_digit(#[trigger] s@[j]),
            i <= s@.len(),
            r@.len() == i,
            forall|j: int| 0 <= j < i ==> (#[trigger] r@[j]) as int == hex_val(s@[j]) && r@[j] < 16,
        decreases s@.len() - i,
    {
        let c = s[i];
        let v: u8 = if c >= 97 {
            c - 87
        } else if c >= 65 {
            c - 55
        } else {
            c - 48
        };
        r.push(v);
        i = i + 1;
    }
    r
}

/// The lowercase hex digits of a sequence of nibble values.
pub fn nibbles_to_ascii(v: &Vec<u8>) -> (r: Vec<u8>)
    requires
        nibbles_ok(v@),
    ensures
        r@.len() == v@.len(),
        forall|i: int| 0 <= i < v@.len() ==> (#[trigger] r@[i]) == hex_digit(v@[i] as int),
        forall|i: int| 0 <= i < v@.len() ==> is_hex_digit(#[trigger] r@[i]),
{
    let mut r: Vec<u8> = Vec::new();
    let mut i: usize = 0;
    while i < v.len()
        invariant
            nibbles_ok(v@),
            i <= v@.len(),
            r@.len() == i,
            forall|j: int|
                0 <= j < i ==> (#[trigger] r@[j]) == hex_digit(v@[j] as int) && is_hex_digit(r@[j]),
        decreases v@.len() - i,
    {
        let n = v[i];
        assert(n < 16);
        let c: u8 = if n < 10 {
            48 + n
        } else {
            87 + n
        };
        r.push(c);
        i = i + 1;
    }
    r
}

/// The nibble sequence of the input bytes, produced through the hex
/// collaborator: each byte yields its high nibble, then its low one.
pub fn bytes_to_nibbles(data: &Vec<u8>) -> (r: Vec<u8>)
    ensures
        r@ == byte_nibbles(data@),
        nibbles_ok(r@),
{
    let digits = hex_encode_bytes(data);
    let nibbles = ascii_to_nibbles(&digits);
    proof {
        assert forall|i: int| 0 <= i < nibbles@.len() implies nibbles@[i] == byte_nibbles(
            data@,
        )[i] by {
            lemma_hex_digit_val(byte_nibbles(data@)[i] as int);
        }
        assert(nibbles@ =~= byte_nibbles(data@));
    }
    nibbles
}

/// The bytes of a nibble sequence, produced through the hex collaborator:
/// consecutive pairs combine high nibble first. An odd number of nibbles
/// cannot form bytes and is rejected.
pub fn nibbles_to_bytes(nibs: &Vec<u8>) -> (r: Result<Vec<u8>, CodecError>)
    requires
        nibbles_ok(nibs@),
    ensures
        match r {
            Ok(v) => {
                &&& nibs@.len() % 2 == 0
                &&& v@.len() == nibs@.len() / 2
                &&& forall|i: int|
                    0 <= i < v@.len() ==> (#[trigger] v@[i]) as int == 16 * nibs@[2 * i]
                        + nibs@[2 * i + 1]
            },
            Err(e) => {
                &&& e == CodecError::HexOddLength
                &&& nibs@.len() % 2 != 0
            },
        },
{
    let digits = nibbles_to_ascii(nibs);
    let r = hex_decode_bytes(&digits);
    proof {
        assert forall|i: int| 0 <= i < digits@.len() implies is_hex_digit(#[trigger] digits@[i]) by {
        }
        if digits@.len() % 2 == 0 {
            assert forall|i: int| 0 <= i < bytes_of_hex(digits@).len() implies bytes_of_hex(
                digits@,
            )[i] as int == 16 * nibs@[2 * i] + nibs@[2 * i + 1] by {
                lemma_hex_digit_val(nibs@[2 * i] as int);
                lemma_hex_digit_val(nibs@[2 * i + 1] as int);
            }
        }
    }
    match r {
        Ok(v) => Ok(v),
        Err(e) => {
            proof {
                assert(e == CodecError::HexOddLength);
            }
            Err(CodecError::HexOddLength)
        },
    }
}

/// Decodes a hex-digit string (ASCII, either case) into bytes: the public
/// face of the byte↔hex collaborator's inverse. An odd digit count is
/// rejected first, then any character that is not a hex digit.
pub fn hex_digits_to_bytes(digits: &Vec<u8>) -> (r: Result<Vec<u8>, CodecError>)
    ensures
        match r {
            Ok(v) => {
                &&& digits@.len() % 2 == 0
                &&& forall|i: int| 0 <= i < digits@.len() ==> is_hex_digit(#[trigger] digits@[i])
                &&& v@ == bytes_of_hex(digits@)
            },
            Err(e) => {
                &&& (e == CodecError::HexOddLength <==> digits@.len() % 2 != 0)
                &&& (e == CodecError::HexInvalidChar <==> (digits@.len() % 2 == 0 && exists|i: int|
                    0 <= i < digits@.len() && !is_hex_digit(#[trigger] digits@[i])))
                &&& (e == CodecError::HexOddLength || e == CodecError::HexInvalidChar)
            },
        },
{
    hex_decode_bytes(digits)
}


/// Byte-level round trip: hex-encoding a byte sequence and decoding the
/// digits reproduces the bytes exactly.
pub proof fn lemma_hex_round_trip(bytes: Seq<u8>)
    ensures
        bytes_of_hex(hex_ascii(bytes)) == bytes,
{
    assert forall|i: int| 0 <= i < bytes.len() implies bytes_of_hex(hex_ascii(bytes))[i]
        == bytes[i] by {
        let b = bytes[i] as int;
        lemma_hex_digit_val(b / 16);
        lemma_hex_digit_val(b % 16);
        lemma_fundamental_div_mod(b, 16);
    }
    assert(bytes_of_hex(hex_ascii(bytes)) =~= bytes);
}

/// The nibbles of a byte sequence pair back into the bytes: the other
/// direction of the byte-level round trip.
pub proof fn lemma_byte_nibbles_pairs(bytes: Seq<u8>)
    ensures
        byte_nibbles(bytes).len() == 2 * bytes.len(),
        byte_nibbles(bytes).len() % 2 == 0,
        forall|i: int|
            0 <= i < bytes.len() ==> 16 * byte_nibbles(bytes)[2 * i] + byte_nibbles(bytes)[2 * i
                + 1] == (#[trigger] bytes[i]) as int,
{
    assert forall|i: int|
        0 <= i < bytes.len() implies 16 * byte_nibbles(bytes)[2 * i] + byte_nibbles(bytes)[2 * i
        + 1] == (#[trigger] bytes[i]) as int by {
        lemma_fundamental_div_mod(bytes[i] as int, 16);
    }
}

} // verus!
