//! SHA-256 and hexadecimal encoding from the `sha2` and `hex` crates

use sha2::Digest;
use vstd::prelude::*;

verus! {

/// SHA-256 digest of a byte string, as computed by `sha2::Sha256`
pub uninterp spec fn sha256_of(data: Seq<u8>) -> Seq<u8>;

/// SHA-256 digest of a byte string
///
/// Calls `sha2::Sha256::digest`. The contract names the result and states
/// its 32-byte length; the hash function itself is not restated.
#[verifier::external_body]
pub(crate) fn sha256(data: &[u8]) -> (digest: Vec<u8>)
    ensures
        digest@ == sha256_of(data@),
        digest@.len() == 32,
{
    sha2::Sha256::digest(data).to_vec()
}

/// Lowercase hexadecimal digit of a value below 16
pub open spec fn hex_digit(value: u8) -> char {
    if value < 10 {
        (48 + value) as char
    } else {
        (87 + value) as char
    }
}

/// Lowercase hexadecimal encoding, two digits per byte, high nibble first
pub open spec fn hex_text(bytes: Seq<u8>) -> Seq<char>
    decreases bytes.len(),
{
    if bytes.len() == 0 {
        Seq::empty()
    } else {
        hex_text(bytes.drop_last()) + seq![hex_digit(bytes.last() / 16), hex_digit(bytes.last() % 16)]
    }
}

/// Hexadecimal text has two digits per byte
pub proof fn lemma_hex_text_len(bytes: Seq<u8>)
    ensures
        hex_text(bytes).len() == 2 * bytes.len(),
    decreases bytes.len(),
{
    if bytes.len() > 0 {
        lemma_hex_text_len(bytes.drop_last());
    }
}

/// Lowercase hexadecimal encoding of bytes
///
/// Calls `hex::encode`, which writes two lowercase digits per byte, high
/// nibble first.
#[verifier::external_body]
pub(crate) fn hex_encode(bytes: &[u8]) -> (text: String)
    ensures
        text@ == hex_text(bytes@),
{
    hex::encode(bytes)
}

/// Value of an ASCII hexadecimal digit (either case)
pub open spec fn hex_value(c: char) -> Option<u8> {
    if '0' <= c <= '9' {
        Some((c as u32 - 48) as u8)
    } else if 'a' <= c <= 'f' {
        Some((c as u32 - 87) as u8)
    } else if 'A' <= c <= 'F' {
        Some((c as u32 - 55) as u8)
    } else {
        None
    }
}

/// Bytes of a hexadecimal text of even length whose characters are all digits
pub open spec fn hex_bytes(text: Seq<char>) -> Seq<u8> {
    Seq::new(
        text.len() / 2,
        |i: int| (hex_value(text[2 * i]).unwrap() * 16 + hex_value(text[2 * i + 1]).unwrap()) as u8,
    )
}

/// Decode a hexadecimal string
///
/// Calls `hex::decode`. For a text of even length made only of hexadecimal
/// digits it returns the decoded bytes; otherwise it fails. Its error is
/// reduced to `None`.
#[verifier::external_body]
pub(crate) fn hex_decode(text: &str) -> (bytes: Option<Vec<u8>>)
    ensures
        (text@.len() % 2 == 0 && forall|i: int| 0 <= i < text@.len() ==> hex_value(#[trigger] text@[i]) is Some)
            <==> bytes is Some,
        bytes matches Some(b) ==> b@ == hex_bytes(text@),
{
    match hex::decode(text) {
        Ok(b) => Some(b),
        Err(_) => None,
    }
}

} // verus!
