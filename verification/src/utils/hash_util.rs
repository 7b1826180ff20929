//! Object hashes: SHA-1 digests, computed by `sha1_smol`, and their
//! hexadecimal form, encoded and decoded by `hex`.
use vstd::prelude::*;
use vstd::string::StringSliceAdditionalSpecFns;

verus! {

/// The SHA-1 digest of `data`, as `sha1_smol` computes it.
pub uninterp spec fn sha1_digest(data: Seq<u8>) -> Seq<u8>;

/// The lowercase hexadecimal digit for `v`, which is below 16.
pub open spec fn hex_digit(v: int) -> char {
    if v < 10 {
        (48 + v) as char
    } else {
        (97 + v - 10) as char
    }
}

/// `bytes` in lowercase hexadecimal, two digits per byte.
pub open spec fn hex_lower(bytes: Seq<u8>) -> Seq<char> {
    Seq::new(
        bytes.len() * 2,
        |i: int|
            if i % 2 == 0 {
                hex_digit(bytes[i / 2] as int / 16)
            } else {
                hex_digit(bytes[i / 2] as int % 16)
            },
    )
}

/// The value of one hexadecimal digit, in either case.
pub open spec fn hex_value(b: u8) -> Option<u8> {
    if 48 <= b <= 57 {
        Some((b - 48) as u8)
    } else if 97 <= b <= 102 {
        Some((b - 97 + 10) as u8)
    } else if 65 <= b <= 70 {
        Some((b - 65 + 10) as u8)
    } else {
        None
    }
}

/// The bytes that the hexadecimal text `s` spells, two digits per byte, or
/// `None` where `s` has an odd length or a non-digit.
pub open spec fn hex_decoded(s: Seq<u8>) -> Option<Seq<u8>> {
    if s.len() % 2 != 0 {
        None
    } else if exists|i: int| 0 <= i < s.len() && hex_value(s[i]) is None {
        None
    } else {
        Some(
            Seq::new(
                s.len() / 2,
                |i: int| (hex_value(s[2 * i])->0 * 16 + hex_value(s[2 * i + 1])->0) as u8,
            ),
        )
    }
}

/// `sha1_smol::Sha1::from(data).digest().to_string()`. Claimed: the result is the
/// lowercase hexadecimal form of the 20-byte digest named `sha1_digest(data)`
/// (the source prints the five state words with `{:08x}`).
#[verifier::external_body]
pub(crate) fn sha1_hexdigest(data: &[u8]) -> (r: String)
    ensures
        r@ == hex_lower(sha1_digest(data@)) && r@.len() == 40,
{
    sha1_smol::Sha1::from(data).digest().to_string()
}

/// `hex::encode(bytes)`: lowercase hexadecimal, two digits per byte.
#[verifier::external_body]
pub(crate) fn hex_encode(bytes: &[u8]) -> (r: String)
    ensures
        r@ == hex_lower(bytes@),
{
    hex::encode(bytes)
}

/// `hex::decode(s)` over the bytes of `s`: `None` on an odd length or a
/// non-digit, else the bytes that each pair of digits spells.
#[verifier::external_body]
pub(crate) fn hex_decode(s: &str) -> (r: Option<Vec<u8>>)
    ensures
        match hex_decoded(s.spec_bytes()) {
            Some(v) => r matches Some(w) && w@ == v,
            None => r is None,
        },
{
    hex::decode(s).ok()
}

} // verus!
