//! A shared, read-only memory mapping of a source archive file.
//!
//! Every entry read lazily from an archive holds one strong reference to the
//! mapping of that archive, so the mapping lives exactly as long as its
//! longest-lived entry. The mapping is never written through; its bytes are
//! fixed for its whole lifetime, which is what [`map_bytes`] names.

use std::sync::Arc;
use vstd::prelude::*;

verus! {

#[verifier::external_type_specification]
#[verifier::external_body]
pub struct ExMmap(memmap2::Mmap);

/// The bytes a read-only mapping holds, fixed once the mapping exists.
pub uninterp spec fn map_bytes(m: memmap2::Mmap) -> Seq<u8>;

/// A reference-counted handle to one read-only memory mapping. Entries
/// sourced from the same archive share one handle; the mapping is released
/// when the last handle drops.
#[derive(Debug)]
pub struct SharedMmap {
    map: Arc<memmap2::Mmap>,
}

impl SharedMmap {
    /// The bytes of the underlying mapping.
    pub closed spec fn bytes(&self) -> Seq<u8> {
        map_bytes(*self.map)
    }

    /// Wraps a fresh mapping in a shared handle.
    /// Relies on `Arc::new`: the handle holds exactly the given mapping.
    #[verifier::external_body]
    pub fn new(map: memmap2::Mmap) -> (r: SharedMmap)
        ensures
            r.bytes() == map_bytes(map),
    {
        SharedMmap { map: Arc::new(map) }
    }

    /// A second handle to the same mapping.
    /// Relies on `Arc::clone`: the clone points at the same allocation.
    #[verifier::external_body]
    pub fn share(&self) -> (r: SharedMmap)
        ensures
            r.bytes() == self.bytes(),
    {
        SharedMmap { map: Arc::clone(&self.map) }
    }

    /// A view of the whole mapping.
    /// Relies on `memmap2::Mmap`'s `Deref<Target = [u8]>`: the slice covers
    /// the mapped bytes.
    #[verifier::external_body]
    pub(crate) fn as_bytes<'a>(&'a self) -> (r: &'a [u8])
        ensures
            r@ == self.bytes(),
            r@.len() <= usize::MAX,
    {
        &self.map[..]
    }

    /// The length of the mapping in bytes.
    pub fn len(&self) -> (r: usize)
        ensures
            r == self.bytes().len(),
    {
        self.as_bytes().len()
    }
}

} // verus!
