//! The reference protocol: the contract a type meets so the collector can
//! walk object graphs of that type without knowing its shape.

use vstd::prelude::*;
use crate::space::Space;
use crate::space_ptr::Heap;

verus! {

/// The contract a managed type supplies to the collector.
///
/// A managed value exposes the cross-object references it directly holds as
/// a sequence — one level deep, never recursing into referents — and lets
/// the collector replace them in bulk after a relocation. The ghost half of
/// the contract (`refs`, `with_refs`) pins down what the executable half
/// (`subfields`, `set_subfields`) does: replacing the references changes the
/// value in no other way, and duplication is an exact value copy.
pub trait Traceable: Sized {
    /// The cross-object references the value directly holds, in the order
    /// `subfields` reports them.
    spec fn refs(&self) -> Seq<Heap>;

    /// The same value with its cross-object references replaced, position by
    /// position, by `rs`. Meaningful when `rs` has one entry per reference.
    spec fn with_refs(&self, rs: Seq<Heap>) -> Self;

    /// Replacing the references by themselves is the identity, and the
    /// references of a replaced value are the replacement.
    proof fn lemma_with_refs(&self, rs: Seq<Heap>)
        ensures
            self.with_refs(self.refs()) == *self,
            rs.len() == self.refs().len() ==> self.with_refs(rs).refs() == rs,
    ;

    /// An exact value copy. Relocation copies the representation; referents
    /// are shared through the copied references, never duplicated.
    fn duplicate(&self) -> (r: Self)
        ensures
            r == *self,
    ;

    /// Enumerates the directly held cross-object references.
    fn subfields(&self) -> (r: Vec<Heap>)
        ensures
            r@ == self.refs(),
    ;

    /// Replaces the directly held cross-object references, one entry per
    /// reference, leaving the rest of the value unchanged.
    fn set_subfields(&mut self, rs: Vec<Heap>)
        requires
            rs@.len() == old(self).refs().len(),
        ensures
            *final(self) == old(self).with_refs(rs@),
    ;
}

/// A plain integer holds no references; every operation of the protocol is
/// trivial on it.
impl Traceable for i64 {
    open spec fn refs(&self) -> Seq<Heap> {
        Seq::empty()
    }

    open spec fn with_refs(&self, rs: Seq<Heap>) -> i64 {
        *self
    }

    proof fn lemma_with_refs(&self, rs: Seq<Heap>) {
        if rs.len() == self.refs().len() {
            assert(self.with_refs(rs).refs() =~= rs);
        }
    }

    fn duplicate(&self) -> (r: i64) {
        *self
    }

    fn subfields(&self) -> (r: Vec<Heap>) {
        let r: Vec<Heap> = Vec::new();
        proof {
            assert(r@ =~= self.refs());
        }
        r
    }

    fn set_subfields(&mut self, rs: Vec<Heap>) {
    }
}

/// A slot is hit by one of a value's references when some reference keys
/// its metadata on that slot.
pub open spec fn ref_hits(rs: Seq<Heap>, i: int) -> bool {
    exists|q: int| 0 <= q < rs.len() && (#[trigger] rs[q]).ptr.bit_idx == i
}

/// Marks every slot the value's cross-object references designate, as far
/// as they lie inside the arena: the derived, one-level mark operation the
/// reference protocol gives every managed type. Out-of-range references are
/// ignored, and nothing else about the arena changes.
#[verifier::loop_isolation(false)]
pub fn mark_subfields<T: Traceable>(space: &mut Space<T>, v: &T)
    requires
        old(space).wf(),
    ensures
        final(space).wf(),
        final(space).slots@ == old(space).slots@,
        final(space).fwds() == old(space).fwds(),
        final(space).free() == old(space).free(),
        final(space).size == old(space).size,
        forall|i: int|
            0 <= i < old(space).marks().len() ==> final(space).marks()[i] == (old(
                space,
            ).marks()[i] || ref_hits(v.refs(), i)),
{
    let subs = v.subfields();
    let n = subs.len();
    let mut q: usize = 0;
    while q < n
        invariant
            q <= n,
            space.wf(),
            space.slots@ == old(space).slots@,
            space.fwds() == old(space).fwds(),
            space.free() == old(space).free(),
            space.size == old(space).size,
            forall|i: int|
                0 <= i < old(space).marks().len() ==> space.marks()[i] == (old(
                    space,
                ).marks()[i] || ref_hits(subs@.take(q as int), i)),
        decreases n - q,
    {
        let h = subs[q];
        let idx = h.inner().bit_idx();
        if idx < space.size {
            space.set_mark(&h.inner());
        }
        proof {
            let t1 = subs@.take(q as int + 1);
            let t0 = subs@.take(q as int);
            assert(t1.drop_last() =~= t0);
            assert forall|i: int| 0 <= i < old(space).marks().len() implies space.marks()[i] == (
            old(space).marks()[i] || ref_hits(t1, i)) by {
                if ref_hits(t1, i) {
                    let w = choose|w: int|
                        0 <= w < t1.len() && (#[trigger] t1[w]).ptr.bit_idx == i;
                    if w < q as int {
                        assert(t0[w] == t1[w]);
                        assert(ref_hits(t0, i));
                    } else {
                        assert(t1[w] == subs@[q as int]);
                    }
                }
                if ref_hits(t0, i) {
                    let w = choose|w: int|
                        0 <= w < t0.len() && (#[trigger] t0[w]).ptr.bit_idx == i;
                    assert(t1[w] == t0[w]);
                    assert(ref_hits(t1, i));
                }
                if subs@[q as int].ptr.bit_idx == i {
                    assert(t1[q as int] == subs@[q as int]);
                    assert(ref_hits(t1, i));
                }
            }
        }
        q = q + 1;
    }
    proof {
        assert(subs@.take(n as int) =~= subs@);
    }
}

} // verus!
