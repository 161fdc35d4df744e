//! From a key to a partition index: the leading 32 bits of the key's MD5
//! digest, with the low `shift` bits discarded.

use vstd::prelude::*;
use vstd::arithmetic::power2::{pow2, lemma2_to64, lemma_pow2_adds, lemma_pow2_pos};
use vstd::arithmetic::div_mod::lemma_multiply_divide_lt;
use vstd::bits::lemma_u32_shr_is_div;
use vstd::string::StringSliceAdditionalSpecFns;

verus! {

/// The MD5 digest of a byte string, as the `md5` crate computes it.
pub uninterp spec fn md5_of(bytes: Seq<u8>) -> Seq<u8>;

/// Relies on `md5::compute`: it returns the digest of `bytes`, which is an
/// array of sixteen bytes.
#[verifier::external_body]
fn md5_digest(bytes: &[u8]) -> (r: Vec<u8>)
    ensures
        r@ == md5_of(bytes@),
        r@.len() == 16,
{
    md5::compute(bytes).0.to_vec()
}

/// The first four bytes of `d`, read as a big-endian unsigned integer.
pub open spec fn leading_word(d: Seq<u8>) -> nat {
    (d[0] as nat) * 0x1000000 + (d[1] as nat) * 0x10000 + (d[2] as nat) * 0x100 + (d[3] as nat)
}

/// The partition that a digest selects: its leading word with the low
/// `shift` bits dropped.
pub open spec fn partition_index(d: Seq<u8>, shift: nat) -> nat {
    leading_word(d) / pow2(shift)
}

/// The partition of a key's UTF-8 bytes.
pub open spec fn key_partition(key: Seq<u8>, shift: nat) -> nat {
    partition_index(md5_of(key), shift)
}

/// Maps a digest (at least four bytes long) to its partition index.
pub fn partition_of_digest(digest: &[u8], shift: u32) -> (r: u32)
    requires
        digest@.len() >= 4,
        shift < 32,
    ensures
        r as nat == partition_index(digest@, shift as nat),
        r < pow2((32 - shift) as nat),
{
    let w: u32 = (digest[0] as u32) * 0x1000000 + (digest[1] as u32) * 0x10000
        + (digest[2] as u32) * 0x100 + (digest[3] as u32);
    proof {
        lemma_u32_shr_is_div(w, shift);
        lemma2_to64();
        lemma_pow2_pos(shift as nat);
        lemma_pow2_adds(shift as nat, (32 - shift) as nat);
        lemma_multiply_divide_lt(w as int, pow2(shift as nat) as int, pow2((32 - shift) as nat) as int);
    }
    w >> shift
}

/// The partition index of `key` for a table of `2^(32 - shift)` slots.
pub fn partition_of_key(key: &str, shift: u32) -> (r: u32)
    requires
        shift < 32,
    ensures
        r as nat == key_partition(key.spec_bytes(), shift as nat),
        r < pow2((32 - shift) as nat),
{
    let digest = md5_digest(key.as_bytes());
    partition_of_digest(digest.as_slice(), shift)
}

} // verus!
