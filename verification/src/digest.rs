//! BLAKE3 digests, rendered in lowercase hexadecimal.
use vstd::prelude::*;

verus! {

pub open spec fn is_lower_hex(c: char) -> bool {
    ('0' <= c <= '9') || ('a' <= c <= 'f')
}

/// The lowercase hexadecimal BLAKE3 digest of `input`.
pub uninterp spec fn blake3_hex(input: Seq<u8>) -> Seq<char>;

/// Calls `blake3::hash` and renders the 32-byte digest with `Hash::to_hex`: the result is
/// the named digest of the input bytes, 64 hexadecimal characters long.
#[verifier::external_body]
pub(crate) fn blake3_digest(input: &[u8]) -> (r: String)
    ensures
        r@ == blake3_hex(input@),
        r@.len() == 64,
        forall|i: int| 0 <= i < 64 ==> is_lower_hex(#[trigger] r@[i]),
{
    blake3::hash(input).to_hex().to_string()
}

/// The key of a stored snapshot: the digest of the report's serialized text, so that an
/// identical report is stored once.
pub fn snapshot_key(report_json: &str) -> (r: String)
    ensures
        r@ == blake3_hex(vstd::utf8::encode_utf8(report_json@)),
{
    let bytes = report_json.as_bytes();
    blake3_digest(bytes)
}

} // verus!
