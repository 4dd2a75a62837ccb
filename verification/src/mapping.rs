//! The memory-mapped region that backs a log or an index, and what is
//! taken on trust about it.
//!
//! Verus does not look inside `memmap`. The items of this file state what the
//! rest of the crate relies on: a mapping is a run of bytes of fixed length,
//! reading gives the bytes that are there, writing replaces a range and
//! leaves the rest alone.

use vstd::prelude::*;
use memmap::MmapMut;

verus! {

/// `memmap::MmapMut`, a writable memory map. Opaque to the verifier.
#[verifier::external_type_specification]
#[verifier::external_body]
pub struct ExMmapMut(memmap::MmapMut);

/// `std::io::Error`, what a failed request to the operating system returns.
/// Opaque to the verifier.
#[verifier::external_type_specification]
#[verifier::external_body]
pub struct ExIoError(std::io::Error);

/// The bytes of a mapping, as this process sees them: what `MmapMut` derefs
/// to. The mapping is taken to be this process's alone, as `memmap` asks of
/// whoever maps a file.
pub uninterp spec fn mapped_bytes(map: MmapMut) -> Seq<u8>;

/// The length of the mapping: `<[u8]>::len` through `MmapMut`'s `Deref`,
/// which hands out the mapped range whole.
#[verifier::external_body]
pub(crate) fn map_len(map: &MmapMut) -> (n: usize)
    ensures
        n == mapped_bytes(*map).len(),
{
    map.len()
}

/// The bytes `from..to` of the mapping, borrowed: indexing through
/// `MmapMut`'s `Deref`. Nothing is copied.
#[verifier::external_body]
pub(crate) fn map_read(map: &MmapMut, from: usize, to: usize) -> (bytes: &[u8])
    requires
        from <= to <= mapped_bytes(*map).len(),
    ensures
        bytes@ == mapped_bytes(*map).subrange(from as int, to as int),
{
    &map[from..to]
}

/// Copies `data` over the bytes `from..to` of the mapping: `copy_from_slice`
/// on the range that `MmapMut`'s `DerefMut` hands out. The length and every
/// byte outside the range stay as they were.
#[verifier::external_body]
pub(crate) fn map_write(map: &mut MmapMut, from: usize, to: usize, data: &[u8])
    requires
        from <= to <= mapped_bytes(*old(map)).len(),
        data@.len() == to - from,
    ensures
        mapped_bytes(*final(map)) == mapped_bytes(*old(map)).subrange(0, from as int) + data@
            + mapped_bytes(*old(map)).subrange(to as int, mapped_bytes(*old(map)).len() as int),
{
    map[from..to].copy_from_slice(data)
}

/// `MmapMut::flush_async`: asks the operating system to start writing the
/// modified pages out and does not wait for it. The mapping is not changed;
/// nothing is claimed of whether the request succeeds.
#[verifier::external_body]
pub(crate) fn map_flush_async(map: &MmapMut) -> (flushed: Result<(), std::io::Error>)
{
    map.flush_async()
}

} // verus!
