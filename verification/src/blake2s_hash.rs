//! Hashes as bytes and as words.

use crate::byte_order;
use vstd::prelude::*;

verus! {

/// Number of bytes of a hash.
pub const BLAKE_BYTES_PER_HASH: usize = 32;

/// A Blake2s hash.
#[derive(Debug, Clone, Copy, PartialEq, Eq)]
pub struct Blake2sHash(pub [u8; 32]);

impl Blake2sHash {
    /// The words of the hash: its bytes are theirs, each word least significant byte first.
    pub open spec fn has_words(self, words: Seq<u32>) -> bool {
        byte_order::le_words(words) == self.0@
    }

    /// The hash as words.
    pub fn words(self) -> (r: [u32; 8])
        ensures
            self.has_words(r@),
    {
        cast_to_words(self.0)
    }

    /// The hash with the given words.
    pub fn from_words(words: [u32; 8]) -> (r: Blake2sHash)
        ensures
            r.has_words(words@),
    {
        Blake2sHash(cast_to_bytes(words))
    }
}

/// `bytemuck::cast` from 32 bytes to eight words.  It reinterprets the bytes in the
/// machine's order; with `u32::from_le` on the result, the bytes are those of the words
/// with the least significant byte first, on every machine.
#[verifier::external_body]
fn cast_to_words(bytes: [u8; 32]) -> (r: [u32; 8])
    ensures
        byte_order::le_words(r@) == bytes@,
{
    bytemuck::cast::<[u8; 32], [u32; 8]>(bytes).map(u32::from_le)
}

/// `bytemuck::cast` from eight words to 32 bytes.  It reinterprets the words in the
/// machine's order; with `u32::to_le` on the argument, the result holds each word with the
/// least significant byte first, on every machine.
#[verifier::external_body]
fn cast_to_bytes(words: [u32; 8]) -> (r: [u8; 32])
    ensures
        r@ == byte_order::le_words(words@),
{
    bytemuck::cast::<[u32; 8], [u8; 32]>(words.map(u32::to_le))
}

/// A hash has only one sequence of words, and words belong to only one hash.
pub proof fn law_hash_words_unique(
    a: Blake2sHash,
    b: Blake2sHash,
    words_a: Seq<u32>,
    words_b: Seq<u32>,
)
    requires
        a.has_words(words_a),
        b.has_words(words_b),
    ensures
        words_a == words_b <==> a.0@ == b.0@,
{
    if a.0@ == b.0@ {
        byte_order::lemma_le_words_injective(words_a, words_b);
    }
}

} // verus!
