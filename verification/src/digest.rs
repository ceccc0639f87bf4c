//! Hashes and their text.

use vstd::prelude::*;

use crate::text::hex_byte;

verus! {

/// The SHA-256 digest of bytes.
pub uninterp spec fn sha256_of(bytes: Seq<u8>) -> Seq<u8>;

/// `sha2::Sha256::digest`: the 32 bytes of the SHA-256 digest, a function of
/// the bytes alone.
#[verifier::external_body]
pub(crate) fn sha256(bytes: &[u8]) -> (r: Vec<u8>)
    ensures
        r@ == sha256_of(bytes@),
        r@.len() == 32,
{
    <sha2::Sha256 as sha2::Digest>::digest(bytes).to_vec()
}

/// Bytes as lowercase hexadecimal digits, two for each.
pub open spec fn hex_text(bytes: Seq<u8>) -> Seq<char>
    decreases bytes.len(),
{
    if bytes.len() == 0 {
        Seq::empty()
    } else {
        hex_text(bytes.drop_last()) + hex_byte(bytes.last())
    }
}

/// `hex::encode`: two lowercase hexadecimal digits for each byte, in order.
#[verifier::external_body]
pub(crate) fn to_hex(bytes: &[u8]) -> (r: String)
    ensures
        r@ == hex_text(bytes@),
{
    hex::encode(bytes)
}

/// The first `n` bytes of a text's SHA-256 digest, in hexadecimal.
pub open spec fn short_hash(bytes: Seq<u8>, n: int) -> Seq<char> {
    hex_text(sha256_of(bytes).subrange(0, n))
}

/// The first `n` bytes of the SHA-256 digest of `bytes`, in hexadecimal.
pub fn short_digest(bytes: &[u8], n: usize) -> (r: String)
    requires
        n <= 32,
    ensures
        r@ == short_hash(bytes@, n as int),
        r@.len() == 2 * n,
{
    let digest = sha256(bytes);
    proof {
        lemma_hex_len(digest@.subrange(0, n as int));
    }
    to_hex(vstd::slice::slice_subrange(digest.as_slice(), 0, n))
}

pub proof fn lemma_hex_len(bytes: Seq<u8>)
    ensures
        hex_text(bytes).len() == 2 * bytes.len(),
    decreases bytes.len(),
{
    if bytes.len() > 0 {
        lemma_hex_len(bytes.drop_last());
    }
}

/// Bytes in hexadecimal are those of one byte after the other; a short hash is that of
/// the first bytes of the digest.
pub proof fn law_hashes_are_hexadecimal(bytes: Seq<u8>, n: int)
    ensures
        hex_text(bytes) == bytes.flat_map(|byte: u8| hex_byte(byte)),
        short_hash(bytes, n) == hex_text(sha256_of(bytes).subrange(0, n)),
    decreases bytes.len(),
{
    crate::maps::lemma_flat_map_step(bytes, |byte: u8| hex_byte(byte));
    if bytes.len() > 0 {
        law_hashes_are_hexadecimal(bytes.drop_last(), n);
    }
}

} // verus!
