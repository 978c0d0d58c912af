//! In-memory representation of a fully buffered cached file: its content
//! hash and its bytes behind a cheaply sharable handle.

use std::sync::Arc;

use vstd::prelude::*;

use crate::digest::sha256_hex;
use crate::digest::sha256_hex_of;

verus! {

/// Immutable bytes behind a reference-counted handle, so a cache entry and
/// an in-flight response can hold the same buffer without copying.
pub struct SharedBytes(Arc<Vec<u8>>);

impl View for SharedBytes {
    type V = Seq<u8>;

    closed spec fn view(&self) -> Seq<u8> {
        self.0@
    }
}

impl SharedBytes {
    /// Wrap a buffer.
    pub fn new(bytes: Vec<u8>) -> (r: Self)
        ensures
            r@ == bytes@,
    {
        SharedBytes(Arc::new(bytes))
    }

    /// The bytes themselves.
    pub fn as_slice(&self) -> (r: &[u8])
        ensures
            r@ == self@,
    {
        self.0.as_slice()
    }

    /// Another handle to the same buffer.
    pub fn share(&self) -> (r: Self)
        ensures
            r@ == self@,
    {
        SharedBytes(Arc::clone(&self.0))
    }

    /// How many bytes the buffer holds.
    pub fn len(&self) -> (r: usize)
        ensures
            r == self@.len(),
    {
        self.0.len()
    }
}

/// One buffered file held by the byte cache: its SHA-256 hash (the response
/// validator) and its full contents.
pub struct CachedFileEntry {
    hash: Vec<u8>,
    bytes: SharedBytes,
}

impl CachedFileEntry {
    /// The stored hash text.
    pub closed spec fn hash_spec(&self) -> Seq<u8> {
        self.hash@
    }

    /// The stored bytes.
    pub closed spec fn bytes_spec(&self) -> Seq<u8> {
        self.bytes@
    }

    /// Buffer `bytes` and record their digest.
    pub fn new(bytes: Vec<u8>) -> (r: Self)
        ensures
            r.hash_spec() == sha256_hex_of(bytes@),
            r.bytes_spec() == bytes@,
    {
        let hash = sha256_hex(bytes.as_slice());
        CachedFileEntry { hash, bytes: SharedBytes::new(bytes) }
    }

    /// The content hash, as lowercase hex bytes.
    pub fn hash(&self) -> (r: &Vec<u8>)
        ensures
            r@ == self.hash_spec(),
    {
        &self.hash
    }

    /// The buffered contents.
    pub fn bytes(&self) -> (r: &SharedBytes)
        ensures
            r@ == self.bytes_spec(),
    {
        &self.bytes
    }
}

} // verus!
