//! MD5 digests, folded into the 56-bit hash that names a resource at run time.

use md5::{Digest, Md5};
use vstd::prelude::*;
use vstd::utf8::encode_utf8;

verus! {

/// The sixteen bytes of the MD5 digest of `data`.
pub uninterp spec fn md5_of(data: Seq<u8>) -> Seq<u8>;

/// `Md5::digest` of the `md-5` crate: the digest of `data`, which has sixteen
/// bytes. Assumed, not proved.
#[verifier::external_body]
pub(crate) fn md5_digest(data: &[u8]) -> (digest: Vec<u8>)
    ensures
        digest@ == md5_of(data@),
        digest@.len() == 16,
{
    Md5::digest(data).as_slice().to_vec()
}

/// Bytes 1 to 7 of a digest, read as one big-endian number.
pub open spec fn digest_hash(digest: Seq<u8>) -> int {
    0x1_0000_0000_0000 * (digest[1] as int) + 0x100_0000_0000 * (digest[2] as int) + 0x1_0000_0000
        * (digest[3] as int) + 0x100_0000 * (digest[4] as int) + 0x1_0000 * (digest[5] as int)
        + 0x100 * (digest[6] as int) + (digest[7] as int)
}

/// The hash never reaches past 56 bits.
pub proof fn lemma_digest_hash_range(digest: Seq<u8>)
    requires
        digest.len() >= 8,
    ensures
        0 <= digest_hash(digest) <= 0x00FF_FFFF_FFFF_FFFF,
        digest_hash(digest) == 0x00FF_FFFF_FFFF_FFFF <==> (forall|i: int|
            1 <= i <= 7 ==> digest[i] == 0xFF),
{
}

/// Folds bytes 1 to 7 of a digest into a number, most significant first.
pub fn fold_digest(digest: &Vec<u8>) -> (hash: u64)
    requires
        digest@.len() >= 8,
    ensures
        hash == digest_hash(digest@),
{
    proof {
        lemma_digest_hash_range(digest@);
    }
    let mut hash: u64 = digest[1] as u64;
    hash = hash * 0x100 + digest[2] as u64;
    hash = hash * 0x100 + digest[3] as u64;
    hash = hash * 0x100 + digest[4] as u64;
    hash = hash * 0x100 + digest[5] as u64;
    hash = hash * 0x100 + digest[6] as u64;
    hash = hash * 0x100 + digest[7] as u64;
    hash
}

/// Hashes text into the 56 bits that the engine uses as an identifier.
pub struct Md5Engine;

impl Md5Engine {
    /// The hash of the UTF-8 bytes of `data`.
    pub fn compute(data: &str) -> (hash: u64)
        ensures
            hash == digest_hash(md5_of(encode_utf8(data@))),
            hash <= 0x00FF_FFFF_FFFF_FFFF,
    {
        let digest = md5_digest(data.as_bytes());
        proof {
            lemma_digest_hash_range(digest@);
        }
        fold_digest(&digest)
    }
}

} // verus!
