//! Content hashes: blake3 digests rendered as lowercase hexadecimal.

use vstd::prelude::*;

verus! {

/// The blake3 digest of the UTF-8 encoding of `text`, as lowercase hexadecimal.
pub uninterp spec fn blake3_hex_of(text: Seq<char>) -> Seq<char>;

/// `0`–`9` or `a`–`f`.
pub open spec fn is_lower_hex(c: char) -> bool {
    ('0' <= c && c <= '9') || ('a' <= c && c <= 'f')
}

/// A 64-character lowercase hexadecimal digest.
pub open spec fn is_hex_digest(h: Seq<char>) -> bool {
    &&& h.len() == 64
    &&& forall|i: int| 0 <= i < h.len() ==> is_lower_hex(#[trigger] h[i])
}

/// Calls `blake3::hash` on the bytes of `text` and renders it with `Hash::to_hex`. The
/// contract names the digest and states what `to_hex` documents and its source shows: 64
/// characters, lowercase hexadecimal (two per byte of the 32-byte output).
#[verifier::external_body]
pub(crate) fn blake3_hex(text: &str) -> (h: String)
    ensures
        h@ == blake3_hex_of(text@),
        is_hex_digest(h@),
{
    blake3::hash(text.as_bytes()).to_hex().to_string()
}

} // verus!
