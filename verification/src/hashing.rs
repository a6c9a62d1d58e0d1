//! Content hashes (BLAKE3, rendered in nix base32) and the seeded WyHash/WyRand functions.
use vstd::prelude::*;
use std::hash::{Hash, Hasher};
use wyrand::{WyHash, WyRand};
use crate::nix_base32::{nix_base32, to_nix_base32};
use crate::text::{chars_of, string_from_chars};

verus! {

/// The BLAKE3 digest of a byte string, as computed by `blake3::hash`.
pub uninterp spec fn blake3_hash(data: Seq<u8>) -> Seq<u8>;

/// Calls `blake3::hash` and copies out the digest bytes. The contract claims that the result is
/// the digest of `data` (a function of `data` alone) and that it is `blake3::OUT_LEN` = 32 bytes
/// long, as the crate's `Hash([u8; OUT_LEN])` type fixes.
#[verifier::external_body]
pub(crate) fn blake3_digest(data: &[u8]) -> (d: Vec<u8>)
    ensures
        d@ == blake3_hash(data@),
        d@.len() == 32,
{
    blake3::hash(data).as_bytes().to_vec()
}

/// The full content hash of `data`: its BLAKE3 digest in nix base32 (52 characters).
pub fn hash_full(data: &[u8]) -> (s: String)
    ensures
        s@ == nix_base32(blake3_hash(data@)),
        s@.len() == 52,
{
    let digest = blake3_digest(data);
    to_nix_base32(digest.as_slice())
}

/// The 20 characters that `hash_fragment` keeps from a nix base32 rendering of a 32-byte digest:
/// characters `1 .. 21`.
pub open spec fn fragment_of(digest: Seq<u8>) -> Seq<char> {
    nix_base32(digest).subrange(1, 21)
}

/// The short hash fragment of a 32-byte digest, as used in file names.
pub fn nix_fragment(digest: &[u8]) -> (s: String)
    requires
        digest@.len() == 32,
    ensures
        s@ == fragment_of(digest@),
        s@.len() == 20,
{
    let full = to_nix_base32(digest);
    let chars = chars_of(full.as_str());
    let mut out: Vec<char> = Vec::new();
    let mut i: usize = 1;
    while i < 21
        invariant
            1 <= i <= 21,
            chars@ == nix_base32(digest@),
            chars@.len() == 52,
            out@ == chars@.subrange(1, i as int),
        decreases 21 - i,
    {
        out.push(chars[i]);
        i = i + 1;
    }
    string_from_chars(&out)
}

/// A short content hash of `data`: characters `1 .. 21` of its full hash.
pub fn hash_fragment(data: &[u8]) -> (s: String)
    ensures
        s@ == fragment_of(blake3_hash(data@)),
        s@.len() == 20,
{
    let digest = blake3_digest(data);
    nix_fragment(digest.as_slice())
}

/// The value that a `wyrand::WyHash` hasher made with `new_with_default_secret(seed)` finishes
/// with after hashing the pair `(a, b)` through `Hash for (u32, u32)`.
pub uninterp spec fn wyhash_of_pair(seed: u64, a: u32, b: u32) -> u64;

/// The value that a `wyrand::WyHash` hasher made with `new_with_default_secret(seed)` finishes
/// with after hashing the string `s` through `Hash for str`.
pub uninterp spec fn wyhash_of_str(seed: u64, s: Seq<char>) -> u64;

/// Hashes a pair of `u32`s with `wyrand::WyHash` (default secret, given seed). The contract
/// claims only that the result is a function of the seed and the pair: the hasher has no other
/// input.
#[verifier::external_body]
pub(crate) fn wyhash_pair(seed: u64, a: u32, b: u32) -> (h: u64)
    ensures
        h == wyhash_of_pair(seed, a, b),
{
    let mut hasher = WyHash::new_with_default_secret(seed);
    (a, b).hash(&mut hasher);
    hasher.finish()
}

/// Hashes a string with `wyrand::WyHash` (default secret, given seed). The contract claims only
/// that the result is a function of the seed and the string's characters.
#[verifier::external_body]
pub(crate) fn wyhash_str(seed: u64, s: &str) -> (h: u64)
    ensures
        h == wyhash_of_str(seed, s@),
{
    let mut hasher = WyHash::new_with_default_secret(seed);
    s.hash(&mut hasher);
    hasher.finish()
}

/// The state increment of the wyrand generator (`WY0` in the crate's source).
pub open spec fn wyrand_increment() -> int {
    0x2d35_8dcc_aa6c_78a5
}

/// The constant that the advanced state is xored with before mixing (`WY1` in the crate's
/// source).
pub open spec fn wyrand_mix_constant() -> u64 {
    0x8bb8_4b93_962e_acc9
}

/// The random value that `wyrand::WyRand::gen_u64` computes from a state: the state advanced by
/// the increment (wrapping), multiplied as a 128-bit number by itself xored with the mix
/// constant, and the low and high 64-bit halves of the product xored (`wymix`).
pub open spec fn wyrand_output(state: u64) -> u64 {
    let v = ((state + wyrand_increment()) % 0x1_0000_0000_0000_0000) as u64;
    let p = v as int * (v ^ wyrand_mix_constant()) as int;
    ((p % 0x1_0000_0000_0000_0000) as u64) ^ ((p / 0x1_0000_0000_0000_0000) as u64)
}

/// Calls `wyrand::WyRand::gen_u64`, the step that `WyRand::rand` takes: it returns the random
/// value for `state` and the next state. The contract states both as the crate's source computes
/// them: the next state is `state.wrapping_add(WY0)`, the value is `wymix` of it (see
/// `wyrand_output`).
#[verifier::external_body]
pub(crate) fn wyrand_step(state: u64) -> (r: (u64, u64))
    ensures
        r.0 == wyrand_output(state),
        r.1 == (state + wyrand_increment()) % 0x1_0000_0000_0000_0000,
{
    WyRand::gen_u64(state)
}

} // verus!
