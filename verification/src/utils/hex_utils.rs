use vstd::prelude::*;
use crate::types;
use hex::FromHexError;

verus! {

#[verifier::external_type_specification]
#[verifier::external_body]
pub struct ExFromHexError(FromHexError);

/// `c` is a hex digit in either case.
pub open spec fn is_hex_digit(c: u8) -> bool {
    (48 <= c <= 57) || (97 <= c <= 102) || (65 <= c <= 70)
}

/// The value of the hex digit `c`.
pub open spec fn hex_value(c: u8) -> nat {
    if 48 <= c <= 57 {
        (c - 48) as nat
    } else if 97 <= c <= 102 {
        (c - 87) as nat
    } else {
        (c - 55) as nat
    }
}

/// `s` is an even number of hex digits.
pub open spec fn is_hex_string(s: Seq<u8>) -> bool {
    s.len() % 2 == 0 && forall|i: int| 0 <= i < s.len() ==> is_hex_digit(#[trigger] s[i])
}

/// The bytes that a string of hex digit pairs denotes, high nibble first.
pub open spec fn hex_decode_spec(s: Seq<u8>) -> Seq<u8> {
    Seq::new(
        s.len() / 2,
        |i: int| (hex_value(s[2 * i]) * 16 + hex_value(s[2 * i + 1])) as u8,
    )
}

/// The lower-case hex digit for a value below sixteen.
pub open spec fn hex_lower_digit(v: nat) -> u8 {
    if v < 10 {
        (48 + v) as u8
    } else {
        (87 + v) as u8
    }
}

/// Lower-case hex of `data`: two digits per byte, high nibble first.
pub open spec fn hex_encode_spec(data: Seq<u8>) -> Seq<u8> {
    Seq::new(
        2 * data.len(),
        |i: int|
            if i % 2 == 0 {
                hex_lower_digit((data[i / 2] / 16) as nat)
            } else {
                hex_lower_digit((data[i / 2] % 16) as nat)
            },
    )
}

/// Calls `hex::decode_to_slice` into a fresh 32-byte array. The contract
/// claims what the crate's source shows: it succeeds exactly when the input is
/// sixty-four hex digits (either case), and then each byte is the value of a
/// digit pair, high nibble first. Which `FromHexError` comes back otherwise is
/// left unsaid.
#[verifier::external_body]
pub fn read_bytes(byte_str: &[u8]) -> (r: Result<types::Hash, FromHexError>)
    ensures
        r is Ok <==> (byte_str@.len() == 64 && is_hex_string(byte_str@)),
        r matches Ok(arr) ==> arr@ == hex_decode_spec(byte_str@),
{
    let mut arr = [0u8; 32];
    hex::decode_to_slice(byte_str, &mut arr)?;
    Ok(arr)
}

/// Calls `hex::decode`. The contract claims what the crate's source shows: it
/// succeeds exactly when the input is an even number of hex digits (either
/// case), and then each byte is the value of a digit pair, high nibble first.
/// Which `FromHexError` comes back otherwise is left unsaid.
#[verifier::external_body]
pub fn hex_decode(data: &[u8]) -> (r: Result<Vec<u8>, FromHexError>)
    ensures
        r is Ok <==> is_hex_string(data@),
        r matches Ok(v) ==> v@ == hex_decode_spec(data@),
{
    hex::decode(data)
}

/// Calls `hex::encode` and hands back the bytes of the string. The contract
/// claims what the crate's source shows: lower-case hex, two digits per byte,
/// high nibble first.
#[verifier::external_body]
pub fn hex_encode(data: &[u8]) -> (r: Vec<u8>)
    ensures
        r@ == hex_encode_spec(data@),
{
    hex::encode(data).into_bytes()
}

proof fn lemma_hex_digit_roundtrip(v: nat)
    requires
        v < 16,
    ensures
        is_hex_digit(hex_lower_digit(v)),
        hex_value(hex_lower_digit(v)) == v,
{
}

/// Decoding the lower-case hex of some bytes gives the bytes back.
pub proof fn lemma_hex_roundtrip(data: Seq<u8>)
    ensures
        is_hex_string(hex_encode_spec(data)),
        hex_decode_spec(hex_encode_spec(data)) == data,
{
    let e = hex_encode_spec(data);
    assert forall|i: int| 0 <= i < e.len() implies is_hex_digit(#[trigger] e[i]) by {
        if i % 2 == 0 {
            lemma_hex_digit_roundtrip((data[i / 2] / 16) as nat);
        } else {
            lemma_hex_digit_roundtrip((data[i / 2] % 16) as nat);
        }
    }
    assert forall|i: int| 0 <= i < data.len() implies hex_decode_spec(e)[i] == data[i] by {
        assert((2 * i) % 2 == 0);
        assert((2 * i + 1) % 2 == 1);
        assert((2 * i) / 2 == i);
        assert((2 * i + 1) / 2 == i);
        lemma_hex_digit_roundtrip((data[i] / 16) as nat);
        lemma_hex_digit_roundtrip((data[i] % 16) as nat);
        let b = data[i];
        assert((b / 16) * 16 + b % 16 == b);
    }
    assert(hex_decode_spec(e) =~= data);
}

} // verus!
