//! String hashing for hashtable entries: a 64-bit digest of the
//! lowercased value.

use vstd::prelude::*;
use vstd::string::*;

verus! {

/// The lowercase folding of a string, as `str::to_lowercase` computes
/// it.
pub uninterp spec fn lower_of(s: Seq<char>) -> Seq<char>;

/// Relies on str::to_lowercase: the result depends on the characters
/// alone.
#[verifier::external_body]
fn lowercase(s: &str) -> (r: String)
    ensures
        r@ == lower_of(s@),
{
    s.to_lowercase()
}

/// The 64-bit XXH64 digest of a byte string under a seed, as
/// `xxhash_rust::xxh64::xxh64` computes it.
pub uninterp spec fn xxh64_of(bytes: Seq<u8>, seed: u64) -> u64;

/// Relies on xxhash_rust::xxh64::xxh64: the digest depends on the bytes
/// and the seed alone.
#[verifier::external_body]
fn xxh64_digest(bytes: &[u8], seed: u64) -> (r: u64)
    ensures
        r == xxh64_of(bytes@, seed),
{
    xxhash_rust::xxh64::xxh64(bytes, seed)
}

/// A way of hashing strings into table keys.
pub trait Hasher {
    /// The key type produced.
    type Output;

    /// What the hash of a string is.
    spec fn spec_hash(s: Seq<char>) -> Self::Output;

    /// Hashes one string.
    fn hash(s: &str) -> (r: Self::Output)
        ensures
            r == Self::spec_hash(s@),
    ;
}

/// The hasher of game-archive entries: XXH64 with seed 0 on the
/// lowercased value.
pub struct WadHasher;

/// The hasher of binary entries. No hashing scheme is defined for it
/// yet.
pub struct BinHasher;

impl Hasher for WadHasher {
    type Output = u64;

    open spec fn spec_hash(s: Seq<char>) -> u64 {
        xxh64_of(vstd::utf8::encode_utf8(lower_of(s)), 0)
    }

    /// 64-bit XXH64 with seed 0, applied on the lowercased string value.
    fn hash(s: &str) -> (r: u64)
    {
        let low = lowercase(s);
        let bytes = low.as_str().as_bytes();
        xxh64_digest(bytes, 0)
    }
}

} // verus!
