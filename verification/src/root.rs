//! Rooted records and the exclusively owned root handles over them.

use vstd::prelude::*;
use crate::runtime::Runtime;
use crate::space::{spec_slot_count, Slot, Space};
use crate::space_ptr::{Heap, SpacePtr};
use crate::trace::Traceable;

verus! {

/// One entry of the collector's registry: whether the allocation is still
/// rooted, the identity its root handle carries, and the slot reference to
/// its current storage. `rooted` starts true and flips to false exactly
/// once, when the root handle is released; a record no longer rooted is
/// dropped from the registry at the next collection.
#[derive(Clone, Copy, PartialEq, Eq, Structural)]
pub struct Rooted {
    pub rooted: bool,
    pub id: usize,
    pub ptr: SpacePtr,
}

impl Rooted {
    /// Builds a fresh, still-rooted record over a slot reference.
    pub fn new(ptr: SpacePtr, id: usize) -> (r: Rooted)
        ensures
            r == (Rooted { rooted: true, id, ptr }),
    {
        Rooted { rooted: true, id, ptr }
    }

    /// Reads the value this record's slot reference designates.
    pub fn borrow<'a, T>(&self, space: &'a Space<T>) -> (r: &'a T)
        requires
            space.wf(),
            self.ptr.loc < space.slots@.len(),
            space.slots@[self.ptr.loc as int] is Object,
        ensures
            *r == space.value_at(self.ptr.loc as int),
    {
        space.borrow(&self.ptr)
    }

    /// Makes the root handle that owns this record.
    pub fn into_root(&self) -> (r: Root)
        ensures
            r.id_spec() == self.id,
    {
        Root { id: self.id }
    }

    /// Relocates this record's value into `dst`: the value is copied to the
    /// next free slot of `dst`, the old slot in `src` is overwritten with a
    /// forwarding entry to the new location, and the record's reference is
    /// re-pointed at the new slot. The copied value carries its references
    /// unchanged; resolving them against `src` is a separate step.
    pub fn realloc_to<T: Traceable>(&mut self, dst: &mut Space<T>, src: &mut Space<T>)
        requires
            old(dst).wf(),
            old(src).wf(),
            old(self).ptr.loc == old(self).ptr.bit_idx,
            old(self).ptr.loc < old(src).free_idx,
            old(src).slots@[old(self).ptr.loc as int] is Object,
            old(dst).free() + spec_slot_count::<T>() <= old(dst).cap(),
        ensures
            final(dst).wf(),
            final(src).wf(),
            Space::spec_allocated(
                *old(dst),
                *final(dst),
                old(src).value_at(old(self).ptr.loc as int),
                final(self).ptr,
            ),
            final(self).rooted == old(self).rooted,
            final(self).id == old(self).id,
            final(self).ptr.loc == old(dst).free_idx,
            final(self).ptr.bit_idx == old(dst).free_idx,
            final(src).slots@ == old(src).slots@.update(
                old(self).ptr.loc as int,
                Slot::Forwarded(old(dst).free_idx),
            ),
            final(src).fwds() == old(src).fwds().update(old(self).ptr.loc as int, true),
            final(src).marks() == old(src).marks(),
            final(src).free() == old(src).free(),
            final(src).size == old(src).size,
    {
        let v = src.borrow(&self.ptr).duplicate();
        let np = match dst.allocate(v) {
            Some(np) => np,
            None => vstd::pervasive::unreached(),
        };
        src.set_forward(&self.ptr, np.inner());
        self.ptr = np;
    }
}

impl<T: Traceable> Space<T> {
    /// Relocates a rooted record's value into this arena, leaving a
    /// forwarding entry behind in `src`.
    pub fn realloc(&mut self, rec: &mut Rooted, src: &mut Space<T>)
        requires
            old(self).wf(),
            old(src).wf(),
            old(rec).ptr.loc == old(rec).ptr.bit_idx,
            old(rec).ptr.loc < old(src).free_idx,
            old(src).slots@[old(rec).ptr.loc as int] is Object,
            old(self).free() + spec_slot_count::<T>() <= old(self).cap(),
        ensures
            final(self).wf(),
            final(src).wf(),
            Space::spec_allocated(
                *old(self),
                *final(self),
                old(src).value_at(old(rec).ptr.loc as int),
                final(rec).ptr,
            ),
            final(rec).rooted == old(rec).rooted,
            final(rec).id == old(rec).id,
            final(rec).ptr.loc == old(self).free_idx,
            final(rec).ptr.bit_idx == old(self).free_idx,
            final(src).slots@ == old(src).slots@.update(
                old(rec).ptr.loc as int,
                Slot::Forwarded(old(self).free_idx),
            ),
            final(src).fwds() == old(src).fwds().update(old(rec).ptr.loc as int, true),
            final(src).marks() == old(src).marks(),
            final(src).free() == old(src).free(),
            final(src).size == old(src).size,
    {
        rec.realloc_to(self, src)
    }
}

/// An exclusively owned root handle: the one live handle over one rooted
/// record. Holding it keeps the record's value alive across collections;
/// releasing it (a consuming operation) marks the record for reclamation at
/// the next collection. The handle is deliberately neither copyable nor
/// clonable.
pub struct Root {
    pub(crate) id: usize,
}

impl Root {
    /// The identity of the rooted record this handle owns.
    pub closed spec fn id_spec(&self) -> usize {
        self.id
    }

    /// Builds the handle over record identity `id`.
    pub(crate) fn from_id(id: usize) -> (r: Root)
        ensures
            r.id_spec() == id,
    {
        Root { id }
    }

    /// The identity as a runtime value.
    pub(crate) fn raw_id(&self) -> (i: usize)
        ensures
            i == self.id_spec(),
    {
        self.id
    }

    /// Allocates `t` in the runtime's arena — collecting first if the arena
    /// is full — registers a fresh rooted record for it, and returns the
    /// record's root handle.
    pub fn new<T: Traceable>(rt: &mut Runtime<T>, t: T) -> (r: Root)
        requires
            old(rt).wf(),
            old(rt).next_id_spec() < usize::MAX,
            old(rt).spec_space().free() + spec_slot_count::<T>() <= old(rt).spec_space().cap()
                || (crate::runtime::live_seq(old(rt).registry()).len() + 1)
                * spec_slot_count::<T>() <= old(rt).spec_space().cap(),
        ensures
            final(rt).wf(),
            r.id_spec() == old(rt).next_id_spec(),
            crate::runtime::contains_live(final(rt).registry(), r.id_spec()),
            final(rt).value_of(r.id_spec()) == t,
            final(rt).next_id_spec() == old(rt).next_id_spec() + 1,
    {
        rt.cons(t)
    }

    /// Makes the root handle that owns record `rec`.
    pub fn from_rooted(rec: &Rooted) -> (r: Root)
        ensures
            r.id_spec() == rec.id,
    {
        Root { id: rec.id }
    }

    /// Reads the value this handle keeps alive.
    pub fn borrow<'a, T: Traceable>(&self, rt: &'a Runtime<T>) -> (r: &'a T)
        requires
            rt.wf(),
            crate::runtime::contains_live(rt.registry(), self.id_spec()),
        ensures
            *r == rt.value_of(self.id_spec()),
    {
        rt.borrow_root(self)
    }

    /// Derives a cross-object reference to this handle's current slot, for
    /// embedding inside another managed value.
    pub fn to_heap<T: Traceable>(&self, rt: &Runtime<T>) -> (r: Heap)
        requires
            rt.wf(),
            crate::runtime::contains_live(rt.registry(), self.id_spec()),
        ensures
            r.ptr == crate::runtime::rec_of(rt.registry(), self.id_spec()).ptr,
    {
        Heap::new(self.to_space_ptr(rt))
    }

    /// The slot reference this handle's record currently carries.
    pub fn to_space_ptr<T: Traceable>(&self, rt: &Runtime<T>) -> (r: SpacePtr)
        requires
            rt.wf(),
            crate::runtime::contains_live(rt.registry(), self.id_spec()),
        ensures
            r == crate::runtime::rec_of(rt.registry(), self.id_spec()).ptr,
    {
        rt.ptr_of_root(self)
    }

    /// Relinquishes the handle: the record's `rooted` flag flips to false,
    /// and the next collection drops the record and its value.
    pub fn release<T: Traceable>(self, rt: &mut Runtime<T>)
        requires
            old(rt).wf(),
            crate::runtime::contains_live(old(rt).registry(), self.id_spec()),
        ensures
            final(rt).wf(),
            final(rt).registry() == old(rt).registry().update(
                crate::runtime::idx_of(old(rt).registry(), self.id_spec()),
                Rooted {
                    rooted: false,
                    id: self.id_spec(),
                    ptr: crate::runtime::rec_of(old(rt).registry(), self.id_spec()).ptr,
                },
            ),
            final(rt).spec_space() == old(rt).spec_space(),
            final(rt).next_id_spec() == old(rt).next_id_spec(),
    {
        rt.release_root(self)
    }
}

} // verus!
