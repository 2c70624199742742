//! Conversions between `String` values and their UTF-8 bytes

use vstd::prelude::*;
use vstd::slice::slice_to_vec;
use vstd::utf8::{encode_scalar, encode_utf8};

verus! {

/// UTF-8 bytes of a string
pub open spec fn utf8(s: String) -> Seq<u8> {
    encode_utf8(s@)
}

/// UTF-8 bytes of a list of strings
pub open spec fn utf8_all(v: Seq<String>) -> Seq<Seq<u8>> {
    v.map_values(|s: String| encode_utf8(s@))
}

/// Every byte is below 128
pub open spec fn is_ascii_bytes(bytes: Seq<u8>) -> bool {
    forall|i: int| 0 <= i < bytes.len() ==> #[trigger] bytes[i] < 128
}

/// A text is empty exactly when its UTF-8 encoding is
pub proof fn lemma_utf8_empty(chars: Seq<char>)
    ensures
        encode_utf8(chars).len() == 0 <==> chars.len() == 0,
{
    if chars.len() > 0 {
        assert(encode_utf8(chars) == encode_scalar(chars[0] as u32) + encode_utf8(chars.drop_first()));
    }
}

/// UTF-8 bytes of a string
pub fn string_bytes(s: &String) -> (bytes: Vec<u8>)
    ensures
        bytes@ == encode_utf8(s@),
{
    let view = s.as_str();
    let slice = view.as_bytes();
    slice_to_vec(slice)
}

/// UTF-8 bytes of a string slice
pub fn str_bytes(s: &str) -> (bytes: Vec<u8>)
    ensures
        bytes@ == encode_utf8(s@),
{
    slice_to_vec(s.as_bytes())
}

/// UTF-8 bytes of every string of a list
pub fn strings_bytes(strings: &Vec<String>) -> (bytes: Vec<Vec<u8>>)
    ensures
        bytes@.len() == strings@.len(),
        forall|i: int| 0 <= i < strings@.len() ==> #[trigger] bytes@[i]@ == encode_utf8(strings@[i]@),
{
    let mut bytes: Vec<Vec<u8>> = Vec::new();
    let mut i: usize = 0;
    while i < strings.len()
        invariant
            i <= strings@.len(),
            bytes@.len() == i,
            forall|j: int| 0 <= j < i ==> #[trigger] bytes@[j]@ == encode_utf8(strings@[j]@),
        decreases strings@.len() - i,
    {
        bytes.push(string_bytes(&strings[i]));
        i = i + 1;
    }
    bytes
}

/// The `String` whose UTF-8 encoding is the given ASCII bytes
///
/// Calls `String::from_utf8`, which accepts every valid UTF-8 sequence (ASCII
/// in particular) and keeps its bytes unchanged; the contract claims only that.
#[verifier::external_body]
pub(crate) fn ascii_string(bytes: &Vec<u8>) -> (s: String)
    requires
        is_ascii_bytes(bytes@),
    ensures
        encode_utf8(s@) == bytes@,
        s@.len() == bytes@.len(),
{
    match String::from_utf8(bytes.clone()) {
        Ok(s) => s,
        Err(_) => String::new(),
    }
}

/// Strings for each list of ASCII bytes
pub fn ascii_strings(words: &Vec<Vec<u8>>) -> (strings: Vec<String>)
    requires
        forall|i: int| 0 <= i < words@.len() ==> is_ascii_bytes(#[trigger] words@[i]@),
    ensures
        strings@.len() == words@.len(),
        forall|i: int| 0 <= i < words@.len() ==> encode_utf8(#[trigger] strings@[i]@) == words@[i]@,
{
    let mut strings: Vec<String> = Vec::new();
    let mut i: usize = 0;
    while i < words.len()
        invariant
            i <= words@.len(),
            forall|j: int| 0 <= j < words@.len() ==> is_ascii_bytes(#[trigger] words@[j]@),
            strings@.len() == i,
            forall|j: int| 0 <= j < i ==> encode_utf8(#[trigger] strings@[j]@) == words@[j]@,
        decreases words@.len() - i,
    {
        strings.push(ascii_string(&words[i]));
        i = i + 1;
    }
    strings
}

/// A copy of a list of strings
pub fn copy_strings(strings: &[String]) -> (copy: Vec<String>)
    ensures
        copy@ == strings@,
{
    let mut copy: Vec<String> = Vec::new();
    let mut i: usize = 0;
    while i < strings.len()
        invariant
            i <= strings@.len(),
            copy@ == strings@.take(i as int),
        decreases strings@.len() - i,
    {
        copy.push(strings[i].clone());
        i = i + 1;
        assert(copy@ =~= strings@.take(i as int));
    }
    assert(strings@.take(strings@.len() as int) =~= strings@);
    copy
}

/// An owned copy of a string literal
pub fn owned(s: &str) -> (out: String)
    ensures
        out@ == s@,
{
    s.to_owned()
}

} // verus!
