//! A semi-space copying garbage collector with a handle-based allocation API.
//!
//! Managed values live in a fixed-capacity bump-allocation arena ([`space::Space`]).
//! Client code keeps values alive through exclusively owned root handles
//! ([`root::Root`]) registered with a collector runtime ([`runtime::Runtime`]);
//! objects link to each other through cross-object references
//! ([`space_ptr::Heap`]). A collection cycle relocates every still-rooted value
//! into a fresh arena, leaves a forwarding entry in the old slot, and rewrites
//! the cross-object references of the survivors.
//!
//! Liveness is explicit rooting only: an object reachable solely through
//! another object's embedded reference, without a live root handle of its own,
//! does not survive a collection.

mod bitmap;
mod root;
mod runtime;
mod space;
mod space_ptr;
mod trace;

pub use bitmap::BitMap;
pub use root::{Root, Rooted};
pub use runtime::{
    contains_id, contains_live, fwd_ref, fwd_value, gc_now, idx_of,
    lemma_collection_membership, lemma_collection_preserves_rooted, live_seq, rec_of, relocated,
    target_pos, Runtime, SPACE_SIZE,
};
pub use space::{lemma_allocation_does_not_alias, slot_count, spec_slot_count, Slot, Space};
pub use space_ptr::{Heap, SpacePtr};
pub use trace::{mark_subfields, ref_hits, Traceable};
