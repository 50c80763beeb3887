//! Handles that designate a slot of an arena.

use vstd::prelude::*;

verus! {

/// An internal slot reference: an opaque, arena-local handle to one stored
/// value. `loc` is the slot at which the value can currently be read;
/// `bit_idx` is the key under which the owning arena keeps the slot's
/// metadata (mark and forwarded flags). The two coincide when the handle is
/// produced by an allocation; resolving a forwarding entry re-homes both to
/// the relocated slot.
///
/// Identity is location-based, and copying a handle copies the coordinates
/// only, never the referent.
#[derive(Clone, Copy, PartialEq, Eq, Structural)]
pub struct SpacePtr {
    pub loc: usize,
    pub bit_idx: usize,
}

impl SpacePtr {
    /// Builds a handle from a storage slot and its metadata key.
    pub fn new(loc: usize, bit_idx: usize) -> (r: SpacePtr)
        ensures
            r.loc == loc,
            r.bit_idx == bit_idx,
    {
        SpacePtr { loc, bit_idx }
    }

    /// The storage slot this handle designates.
    pub fn inner(&self) -> (r: usize)
        ensures
            r == self.loc,
    {
        self.loc
    }

    /// The metadata key this handle carries.
    pub fn bit_idx(&self) -> (r: usize)
        ensures
            r == self.bit_idx,
    {
        self.bit_idx
    }
}

/// A cross-object reference: an internal slot reference embedded as a field
/// inside another managed value, linking objects to each other without a
/// root of its own. A value copy of the handle, never of the referent.
#[derive(Clone, Copy, PartialEq, Eq, Structural)]
pub struct Heap {
    pub ptr: SpacePtr,
}

impl Heap {
    /// Wraps a slot reference for embedding inside another managed value.
    pub fn new(ptr: SpacePtr) -> (r: Heap)
        ensures
            r.ptr == ptr,
    {
        Heap { ptr }
    }

    /// The slot reference this cross-object reference wraps.
    pub fn inner(&self) -> (r: SpacePtr)
        ensures
            r == self.ptr,
    {
        self.ptr
    }
}

} // verus!
