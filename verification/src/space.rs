//! The arena: a fixed-capacity bump allocator with per-slot metadata.

use vstd::prelude::*;
use crate::bitmap::BitMap;
use crate::space_ptr::{Heap, SpacePtr};

verus! {

/// How many double words (8-byte units) an allocation of a `T` occupies:
/// its size rounded up to the next multiple of 8 bytes, and at least one
/// double word, so that every stored value owns a slot of its own.
pub open spec fn spec_slot_count<T>() -> nat {
    if vstd::layout::size_of::<T>() == 0 {
        1
    } else {
        (vstd::layout::size_of::<T>() + 7) / 8
    }
}

/// Computes the double-word footprint of a `T`.
pub fn slot_count<T>() -> (n: usize)
    ensures
        n == spec_slot_count::<T>(),
        n >= 1,
{
    let s = core::mem::size_of::<T>();
    if s == 0 {
        1
    } else {
        let n = s / 8 + if s % 8 == 0 { 0 } else { 1 };
        proof {
            assert(s % 8 == 0 ==> s / 8 == (s + 7) / 8) by (nonlinear_arith);
            assert(s % 8 != 0 ==> s / 8 + 1 == (s + 7) / 8) by (nonlinear_arith);
        }
        n
    }
}

/// What one double-word slot of an arena holds: nothing yet, the base of a
/// stored value, or — after the value was relocated by a collection — the
/// slot it was moved to. The forwarding entry plays the role of a forwarding
/// pointer left in the value's old storage.
pub enum Slot<T> {
    Vacant,
    Object(T),
    Forwarded(usize),
}

/// A fixed-capacity bump-allocation arena. `size` double-word slots are
/// chosen once at construction; values are placed at the lowest free slot
/// and the free index only ever grows. One mark bit and one forwarded bit
/// are kept per slot.
pub struct Space<T> {
    pub size: usize,
    pub slots: Vec<Slot<T>>,
    pub free_idx: usize,
    pub mark_bits: BitMap,
    pub forward_bits: BitMap,
}

impl<T> Space<T> {
    /// Capacity in double words.
    pub open spec fn cap(&self) -> int {
        self.size as int
    }

    /// The next unused slot.
    pub open spec fn free(&self) -> int {
        self.free_idx as int
    }

    /// The mark flags, one per slot.
    pub open spec fn marks(&self) -> Seq<bool> {
        self.mark_bits@
    }

    /// The forwarded flags, one per slot.
    pub open spec fn fwds(&self) -> Seq<bool> {
        self.forward_bits@
    }

    /// The stored value whose base is slot `loc`.
    pub open spec fn value_at(&self, loc: int) -> T {
        self.slots@[loc]->Object_0
    }

    /// Structural soundness: every slot has its metadata bit, slots at and
    /// beyond the free index are vacant, and a slot's forwarded bit is set
    /// exactly when the slot holds a forwarding entry.
    pub open spec fn wf(&self) -> bool {
        &&& self.size > 0
        &&& self.slots@.len() == self.size
        &&& self.mark_bits.wf()
        &&& self.mark_bits@.len() == self.size
        &&& self.forward_bits.wf()
        &&& self.forward_bits@.len() == self.size
        &&& self.free_idx <= self.size
        &&& forall|i: int| self.free_idx <= i < self.size ==> self.slots@[i] is Vacant
        &&& forall|i: int|
            0 <= i < self.size ==> (self.fwds()[i] <==> self.slots@[i] is Forwarded)
    }

    /// A slot reference that can be dereferenced against this arena: it was
    /// produced by an allocation here (so its two coordinates agree), lies
    /// below the free index, and its base slot holds a value.
    pub open spec fn valid_object(&self, p: SpacePtr) -> bool {
        &&& p.loc == p.bit_idx
        &&& p.loc < self.free_idx
        &&& self.slots@[p.loc as int] is Object
    }

    /// The allocation transition: `post` is `pre` with `t` placed at the old
    /// free index and the free index advanced by `t`'s footprint; `p` is the
    /// returned slot reference. No metadata changes.
    pub open spec fn spec_allocated(pre: Space<T>, post: Space<T>, t: T, p: SpacePtr) -> bool {
        let d = spec_slot_count::<T>() as int;
        &&& pre.free() + d <= pre.cap()
        &&& p.loc == pre.free_idx
        &&& p.bit_idx == pre.free_idx
        &&& post.size == pre.size
        &&& post.free() == pre.free() + d
        &&& post.slots@ == pre.slots@.update(pre.free(), Slot::Object(t))
        &&& post.marks() == pre.marks()
        &&& post.fwds() == pre.fwds()
    }

    /// Constructs an arena of `size` double-word slots, all vacant, with all
    /// metadata bits clear.
    pub fn new(size: usize) -> (r: Space<T>)
        requires
            size > 0,
        ensures
            r.wf(),
            r.cap() == size,
            r.free() == 0,
            forall|i: int| 0 <= i < size ==> r.slots@[i] is Vacant,
            forall|i: int| 0 <= i < size ==> !r.marks()[i],
            forall|i: int| 0 <= i < size ==> !r.fwds()[i],
    {
        let mut slots: Vec<Slot<T>> = Vec::new();
        let mut k: usize = 0;
        while k < size
            invariant
                k <= size,
                slots@.len() == k,
                forall|j: int| 0 <= j < k ==> slots@[j] is Vacant,
            decreases size - k,
        {
            slots.push(Slot::Vacant);
            k = k + 1;
        }
        Space {
            size,
            slots,
            free_idx: 0,
            mark_bits: BitMap::new(size),
            forward_bits: BitMap::new(size),
        }
    }

    /// Stores `t` at the current free index if the remaining capacity covers
    /// its rounded double-word size, returning a slot reference to it; when
    /// the capacity would be exceeded, returns nothing and changes nothing.
    pub fn allocate(&mut self, t: T) -> (r: Option<SpacePtr>)
        requires
            old(self).wf(),
        ensures
            final(self).wf(),
            final(self).cap() == old(self).cap(),
            old(self).free() + spec_slot_count::<T>() <= old(self).cap() ==> {
                &&& r is Some
                &&& Space::spec_allocated(*old(self), *final(self), t, r->Some_0)
            },
            old(self).free() + spec_slot_count::<T>() > old(self).cap() ==> {
                &&& r is None
                &&& *final(self) == *old(self)
            },
    {
        let d = slot_count::<T>();
        if d <= self.size - self.free_idx {
            let loc = self.free_idx;
            self.slots[loc] = Slot::Object(t);
            self.free_idx = self.free_idx + d;
        proof {
            assert forall|i: int|
                0 <= i < self.size implies (self.fwds()[i] <==> self.slots@[i] is Forwarded) by {
                assert(old(self).fwds()[i] <==> old(self).slots@[i] is Forwarded);
                assert(old(self).free_idx <= i < old(self).size ==> old(self).slots@[i] is Vacant);
            }
        }
            Some(SpacePtr::new(loc, loc))
        } else {
            None
        }
    }

    /// Reads the value a slot reference designates.
    pub fn borrow<'a>(&'a self, p: &SpacePtr) -> (r: &'a T)
        requires
            self.wf(),
            p.loc < self.slots@.len(),
            self.slots@[p.loc as int] is Object,
        ensures
            *r == self.value_at(p.loc as int),
    {
        match &self.slots[p.loc] {
            Slot::Object(v) => v,
            _ => vstd::pervasive::unreached(),
        }
    }

    /// Overwrites the value stored at base slot `loc` with `t`. The slot must
    /// already hold a value; nothing else changes.
    pub fn set_object(&mut self, loc: usize, t: T)
        requires
            old(self).wf(),
            loc < old(self).slots@.len(),
            old(self).slots@[loc as int] is Object,
        ensures
            final(self).wf(),
            final(self).size == old(self).size,
            final(self).free() == old(self).free(),
            final(self).slots@ == old(self).slots@.update(loc as int, Slot::Object(t)),
            final(self).marks() == old(self).marks(),
            final(self).fwds() == old(self).fwds(),
    {
        self.slots[loc] = Slot::Object(t);
        proof {
            assert forall|i: int|
                0 <= i < self.size implies (self.fwds()[i] <==> self.slots@[i] is Forwarded) by {
                assert(old(self).fwds()[i] <==> old(self).slots@[i] is Forwarded);
                assert(old(self).free_idx <= i < old(self).size ==> old(self).slots@[i] is Vacant);
            }
        }
    }

    /// Sets the mark flag for the slot a reference designates.
    pub fn set_mark(&mut self, p: &SpacePtr)
        requires
            old(self).wf(),
            p.bit_idx < old(self).marks().len(),
        ensures
            final(self).wf(),
            final(self).size == old(self).size,
            final(self).free() == old(self).free(),
            final(self).slots@ == old(self).slots@,
            final(self).marks() == old(self).marks().update(p.bit_idx as int, true),
            final(self).fwds() == old(self).fwds(),
    {
        self.mark_bits.set(p.bit_idx);
        proof {
            assert forall|i: int|
                0 <= i < self.size implies (self.fwds()[i] <==> self.slots@[i] is Forwarded) by {
                assert(old(self).fwds()[i] <==> old(self).slots@[i] is Forwarded);
                assert(old(self).free_idx <= i < old(self).size ==> old(self).slots@[i] is Vacant);
            }
        }
    }

    /// Clears the mark flag for the slot a reference designates.
    pub fn unset_mark(&mut self, p: &SpacePtr)
        requires
            old(self).wf(),
            p.bit_idx < old(self).marks().len(),
        ensures
            final(self).wf(),
            final(self).size == old(self).size,
            final(self).free() == old(self).free(),
            final(self).slots@ == old(self).slots@,
            final(self).marks() == old(self).marks().update(p.bit_idx as int, false),
            final(self).fwds() == old(self).fwds(),
    {
        self.mark_bits.unset(p.bit_idx);
        proof {
            assert forall|i: int|
                0 <= i < self.size implies (self.fwds()[i] <==> self.slots@[i] is Forwarded) by {
                assert(old(self).fwds()[i] <==> old(self).slots@[i] is Forwarded);
                assert(old(self).free_idx <= i < old(self).size ==> old(self).slots@[i] is Vacant);
            }
        }
    }

    /// Reads the mark flag for the slot a reference designates.
    pub fn marked(&self, p: &SpacePtr) -> (r: bool)
        requires
            self.wf(),
            p.bit_idx < self.marks().len(),
        ensures
            r == self.marks()[p.bit_idx as int],
    {
        self.mark_bits.get(p.bit_idx)
    }

    /// Records that the value whose base was `p`'s slot has been relocated to
    /// slot `target`: the old slot is overwritten with a forwarding entry and
    /// its forwarded flag is set.
    pub fn set_forward(&mut self, p: &SpacePtr, target: usize)
        requires
            old(self).wf(),
            p.bit_idx < old(self).free_idx,
        ensures
            final(self).wf(),
            final(self).size == old(self).size,
            final(self).free() == old(self).free(),
            final(self).slots@ == old(self).slots@.update(
                p.bit_idx as int,
                Slot::Forwarded(target),
            ),
            final(self).marks() == old(self).marks(),
            final(self).fwds() == old(self).fwds().update(p.bit_idx as int, true),
    {
        self.slots[p.bit_idx] = Slot::Forwarded(target);
        self.forward_bits.set(p.bit_idx);
        proof {
            assert forall|i: int|
                0 <= i < self.size implies (self.fwds()[i] <==> self.slots@[i] is Forwarded) by {
                assert(old(self).fwds()[i] <==> old(self).slots@[i] is Forwarded);
                assert(old(self).free_idx <= i < old(self).size ==> old(self).slots@[i] is Vacant);
            }
        }
    }

    /// What resolving a cross-object reference against this arena yields: if
    /// the slot the reference keys its metadata on was relocated, the
    /// reference re-homed to the relocation target; otherwise the reference
    /// unchanged.
    pub open spec fn spec_forward(&self, h: Heap) -> Heap {
        if h.ptr.bit_idx < self.size && self.fwds()[h.ptr.bit_idx as int] {
            let t = self.slots@[h.ptr.bit_idx as int]->Forwarded_0;
            Heap { ptr: SpacePtr { loc: t, bit_idx: t } }
        } else {
            h
        }
    }

    /// Resolves a cross-object reference against this arena's forwarding
    /// entries: a reference whose slot was relocated is rewritten to the new
    /// location; any other reference is left as it is.
    pub fn forward(&self, h: &mut Heap)
        requires
            self.wf(),
        ensures
            *final(h) == self.spec_forward(*old(h)),
    {
        let idx = h.ptr.bit_idx;
        if idx < self.size && self.forward_bits.get(idx) {
            proof {
                assert(self.fwds()[idx as int]);
                assert(self.slots@[idx as int] is Forwarded);
            }
            let t = match &self.slots[idx] {
                Slot::Forwarded(t) => *t,
                _ => vstd::pervasive::unreached(),
            };
            h.ptr = SpacePtr::new(t, t);
        }
    }
}

impl SpacePtr {
    /// Reads the value this slot reference designates in `space`.
    pub fn borrow<'a, T>(&self, space: &'a Space<T>) -> (r: &'a T)
        requires
            space.wf(),
            self.loc < space.slots@.len(),
            space.slots@[self.loc as int] is Object,
        ensures
            *r == space.value_at(self.loc as int),
    {
        space.borrow(self)
    }
}

impl Heap {
    /// Reads the value this cross-object reference designates in `space`.
    pub fn borrow<'a, T>(&self, space: &'a Space<T>) -> (r: &'a T)
        requires
            space.wf(),
            self.ptr.loc < space.slots@.len(),
            space.slots@[self.ptr.loc as int] is Object,
        ensures
            *r == space.value_at(self.ptr.loc as int),
    {
        space.borrow(&self.ptr)
    }
}

/// A slot reference returned by an allocation is distinct from every
/// reference that was already valid, and the allocation leaves every value
/// already stored exactly where and as it was. Together with the placement
/// clause of the transition itself this says that as long as allocations
/// stay within capacity, each reference reads back exactly the value passed
/// in, and no two live references alias.
pub proof fn lemma_allocation_does_not_alias<T>(
    pre: Space<T>,
    post: Space<T>,
    t: T,
    p: SpacePtr,
    q: SpacePtr,
)
    requires
        pre.wf(),
        Space::spec_allocated(pre, post, t, p),
        pre.valid_object(q),
    ensures
        q.loc != p.loc,
        post.valid_object(q),
        post.value_at(q.loc as int) == pre.value_at(q.loc as int),
        post.valid_object(p),
        post.value_at(p.loc as int) == t,
{
    assert(spec_slot_count::<T>() >= 1);
}

} // verus!
