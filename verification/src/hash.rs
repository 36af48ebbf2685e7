//! The 64-bit XXH3 hash, from the `xxhash-rust` crate.
use vstd::prelude::*;
use xxhash_rust::xxh3::Xxh3;

verus! {

/// The streaming hasher of `xxhash-rust`.
#[verifier::external_type_specification]
#[verifier::external_body]
pub struct ExXxh3(xxhash_rust::xxh3::Xxh3);

/// The bytes a hasher has been fed so far, in order.
pub uninterp spec fn xxh3_fed(h: Xxh3) -> Seq<u8>;

/// What `Xxh3::digest` returns of a hasher that was fed these bytes.
pub uninterp spec fn xxh3_digest(fed: Seq<u8>) -> u64;

/// What `xxh3_64` returns of these bytes.
pub uninterp spec fn xxh3_of(bytes: Seq<u8>) -> u64;

/// `Xxh3::new`: a hasher with the default seed and secret that was fed nothing.
pub assume_specification[ Xxh3::new ]() -> (h: Xxh3)
    ensures
        xxh3_fed(h) == Seq::<u8>::empty(),
;

/// `Xxh3::update`: the input comes after what was fed before. How the bytes
/// are divided among calls does not matter.
pub assume_specification[ Xxh3::update ](h: &mut Xxh3, input: &[u8])
    ensures
        xxh3_fed(*final(h)) == xxh3_fed(*old(h)) + input@,
;

/// `Xxh3::digest`: a function of the bytes fed, and of nothing else. The
/// hasher stays as it is.
pub assume_specification[ Xxh3::digest ](h: &Xxh3) -> (r: u64)
    ensures
        r == xxh3_digest(xxh3_fed(*h)),
;

/// `xxhash_rust::xxh3::xxh3_64`: the hash of the bytes in one call.
pub assume_specification[ xxhash_rust::xxh3::xxh3_64 ](input: &[u8]) -> (r: u64)
    ensures
        r == xxh3_of(input@),
;

} // verus!
