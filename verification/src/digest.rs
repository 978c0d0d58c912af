//! Incremental SHA-256 hashing through the `sha2` crate.
//!
//! The hasher state is opaque; verification tracks only which bytes it has
//! absorbed, through `digest_bytes`, and names the final rendering of a byte
//! sequence's digest `sha256_hex_of`. Everything computed from a digest is
//! proved against these names.

use vstd::prelude::*;

use crate::metadata::FileMetadata;

verus! {

/// A running SHA-256 computation, wrapping the sha2 crate's hasher. Opaque
/// to verification; `digest_bytes` names what it has absorbed.
#[verifier::external_body]
pub struct DigestState {
    inner: sha2::Sha256,
}

/// The bytes a digest state has absorbed so far.
pub uninterp spec fn digest_bytes(d: DigestState) -> Seq<u8>;

/// The SHA-256 digest of a byte sequence, rendered as 64 lowercase hex
/// digits. A function of the bytes alone.
pub uninterp spec fn sha256_hex_of(bytes: Seq<u8>) -> Seq<u8>;

impl DigestState {
    /// Relies on sha2's `Digest::new`: a fresh hasher has absorbed nothing.
    #[verifier::external_body]
    pub fn new() -> (d: DigestState)
        ensures
            digest_bytes(d) == Seq::<u8>::empty(),
    {
        DigestState { inner: <sha2::Sha256 as sha2::Digest>::new() }
    }

    /// Relies on sha2's `Digest::update`: feeding a chunk appends it to the
    /// absorbed bytes.
    #[verifier::external_body]
    pub fn update(&mut self, chunk: &[u8])
        ensures
            digest_bytes(*final(self)) == digest_bytes(*old(self)) + chunk@,
    {
        sha2::Digest::update(&mut self.inner, chunk);
    }
}

impl FileMetadata {
    /// Relies on sha2's `Digest::finalize` and generic-array's `LowerHex`
    /// formatting: the digest of the absorbed bytes, as exactly 64 lowercase
    /// hex digits, depending on the absorbed bytes alone.
    #[verifier::external_body]
    pub fn hash_to_hex(digest: DigestState) -> (r: Vec<u8>)
        ensures
            r@ == sha256_hex_of(digest_bytes(digest)),
            r@.len() == 64,
            crate::metadata::hash_wf(r@),
    {
        let out = <sha2::Sha256 as sha2::Digest>::finalize(digest.inner);
        format!("{:x}", out).into_bytes()
    }
}

/// The SHA-256 digest of `bytes`, as lowercase hex.
pub fn sha256_hex(bytes: &[u8]) -> (r: Vec<u8>)
    ensures
        r@ == sha256_hex_of(bytes@),
        r@.len() == 64,
        crate::metadata::hash_wf(r@),
{
    let mut d = DigestState::new();
    d.update(bytes);
    proof {
        assert(digest_bytes(d) =~= bytes@);
    }
    FileMetadata::hash_to_hex(d)
}

} // verus!
