//! Fail-soft base64 decoding: malformed input degrades to an empty buffer
//! instead of an error, so a caller is never aborted.
use vstd::prelude::*;

use base64::Engine;

verus! {

/// What base64's standard engine returns for a given input: the decoded bytes,
/// or nothing when the input is not well-formed base64.
pub uninterp spec fn b64_decode_of(s: Seq<char>) -> Option<Seq<u8>>;

/// What base64's standard engine produces for a given sequence of bytes.
pub uninterp spec fn b64_encode_of(b: Seq<u8>) -> Seq<char>;

/// Relies on base64's `general_purpose::STANDARD.decode`: standard alphabet
/// with padding, a function of the input characters alone; malformed input
/// yields an error value, never a panic.
#[verifier::external_body]
fn decode_standard(s: &str) -> (r: Option<Vec<u8>>)
    ensures
        match b64_decode_of(s@) {
            Some(bs) => r is Some && r->0@ == bs,
            None => r is None,
        },
{
    base64::engine::general_purpose::STANDARD.decode(s).ok()
}

/// Relies on base64's `general_purpose::STANDARD.encode`: standard alphabet
/// with padding, a function of the input bytes alone, and the same engine's
/// decode accepts its output and returns exactly the encoded bytes.
#[verifier::external_body]
fn encode_standard(b: &[u8]) -> (r: String)
    requires
        b@.len() <= usize::MAX / 4,
    ensures
        r@ == b64_encode_of(b@),
        b64_decode_of(r@) == Some(b@),
{
    base64::engine::general_purpose::STANDARD.encode(b)
}

/// Decodes standard base64 with padding; on any decode failure the result is
/// an empty buffer.
pub fn base64_to_array_buffer(base64: &str) -> (r: Vec<u8>)
    ensures
        r@ == match b64_decode_of(base64@) {
            Some(bs) => bs,
            None => Seq::<u8>::empty(),
        },
{
    match decode_standard(base64) {
        Some(v) => v,
        None => {
            let v: Vec<u8> = Vec::new();
            assert(v@ =~= Seq::<u8>::empty());
            v
        },
    }
}

/// Encoding bytes as standard base64 and decoding the result returns the
/// original bytes.
pub fn encode_then_decode(bytes: &[u8]) -> (r: Vec<u8>)
    requires
        bytes@.len() <= usize::MAX / 4,
    ensures
        r@ == bytes@,
{
    let encoded = encode_standard(bytes);
    base64_to_array_buffer(encoded.as_str())
}

} // verus!
