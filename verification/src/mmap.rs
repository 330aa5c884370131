//! The shared-memory byte buffer that the compositor reads the overlay from.
//!
//! `memmap2::MmapMut` dereferences to a `[u8]` slice over the mapping; the
//! library reads and writes it byte by byte through the items below.
use vstd::prelude::*;
use memmap2::MmapMut;

verus! {

/// `memmap2::MmapMut`, a writable memory map, carried through verified code as an opaque value.
#[verifier::external_type_specification]
#[verifier::external_body]
pub struct ExMmapMut(MmapMut);

/// The bytes that a memory map currently holds, in order.
pub uninterp spec fn mmap_contents(m: MmapMut) -> Seq<u8>;

/// Calls `<[u8]>::len` on the slice that `MmapMut` dereferences to; the
/// contract claims it is the number of bytes the map holds.
#[verifier::external_body]
pub(crate) fn mmap_len(m: &MmapMut) -> (r: usize)
    ensures
        r == mmap_contents(*m).len(),
{
    m.len()
}

/// Reads byte `i` of the slice that `MmapMut` dereferences to; the contract
/// claims it is byte `i` of the contents.
#[verifier::external_body]
pub(crate) fn mmap_read(m: &MmapMut, i: usize) -> (r: u8)
    requires
        i < mmap_contents(*m).len(),
    ensures
        r == mmap_contents(*m)[i as int],
{
    m[i]
}

/// Writes byte `i` of the slice that `MmapMut` dereferences to mutably; the
/// contract claims that afterwards byte `i` holds `b` and every other byte,
/// and the length, are as before.
#[verifier::external_body]
pub(crate) fn mmap_write(m: &mut MmapMut, i: usize, b: u8)
    requires
        i < mmap_contents(*old(m)).len(),
    ensures
        mmap_contents(*final(m)) == mmap_contents(*old(m)).update(i as int, b),
{
    m[i] = b;
}

} // verus!
