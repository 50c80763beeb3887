//! The collector runtime: one live arena, the registry of rooted records,
//! and the semi-space copying collection cycle.

use vstd::prelude::*;
use crate::root::{Root, Rooted};
use crate::space::{slot_count, spec_slot_count, Slot, Space};
use crate::space_ptr::{Heap, SpacePtr};
use crate::trace::Traceable;

verus! {

/// Capacity, in double words, of every arena a runtime owns.
pub const SPACE_SIZE: usize = 1024;

/// The registry entries still rooted, in registry order: exactly the
/// records a collection relocates, and the registry it leaves behind.
pub open spec fn live_seq(s: Seq<Rooted>) -> Seq<Rooted>
    decreases s.len(),
{
    if s.len() == 0 {
        Seq::empty()
    } else if s.last().rooted {
        live_seq(s.drop_last()).push(s.last())
    } else {
        live_seq(s.drop_last())
    }
}

/// Some entry carries identity `id`.
pub open spec fn contains_id(s: Seq<Rooted>, id: usize) -> bool {
    exists|k: int| 0 <= k < s.len() && (#[trigger] s[k]).id == id
}

/// Some still-rooted entry carries identity `id`.
pub open spec fn contains_live(s: Seq<Rooted>, id: usize) -> bool {
    exists|k: int| 0 <= k < s.len() && (#[trigger] s[k]).id == id && s[k].rooted
}

/// The position of the entry carrying `id`; meaningful when ids are unique
/// and some entry carries it.
pub open spec fn idx_of(s: Seq<Rooted>, id: usize) -> int {
    choose|k: int| 0 <= k < s.len() && (#[trigger] s[k]).id == id
}

/// The entry carrying `id`.
pub open spec fn rec_of(s: Seq<Rooted>, id: usize) -> Rooted {
    s[idx_of(s, id)]
}

/// Whether a collection over live set `live` relocates the value whose base
/// slot in the old arena is `idx`.
pub open spec fn relocated(live: Seq<Rooted>, idx: int) -> bool {
    exists|j: int| 0 <= j < live.len() && (#[trigger] live[j]).ptr.loc == idx
}

/// The live-set position of the record whose old base slot is `idx`.
pub open spec fn target_pos(live: Seq<Rooted>, idx: int) -> int {
    choose|j: int| 0 <= j < live.len() && (#[trigger] live[j]).ptr.loc == idx
}

/// Where a cross-object reference points after a collection over live set
/// `live` with per-value footprint `d`: a reference keyed on a relocated
/// slot is re-homed to the relocation target; any other reference — in
/// particular one left dangling by the release of its target's root — is
/// untouched.
pub open spec fn fwd_ref(live: Seq<Rooted>, d: int, h: Heap) -> Heap {
    if relocated(live, h.ptr.bit_idx as int) {
        let t = target_pos(live, h.ptr.bit_idx as int) * d;
        Heap { ptr: SpacePtr { loc: t as usize, bit_idx: t as usize } }
    } else {
        h
    }
}

/// A managed value as a collection rewrites it: the same value with every
/// directly held cross-object reference resolved through `fwd_ref`.
pub open spec fn fwd_value<T: Traceable>(live: Seq<Rooted>, d: int, v: T) -> T {
    v.with_refs(v.refs().map_values(|h: Heap| fwd_ref(live, d, h)))
}

/// The live entries are rooted, no more numerous than the registry, and
/// each is drawn from it.
pub proof fn lemma_live_seq_basic(s: Seq<Rooted>)
    ensures
        live_seq(s).len() <= s.len(),
        forall|j: int| 0 <= j < live_seq(s).len() ==> (#[trigger] live_seq(s)[j]).rooted,
        forall|j: int|
            #![trigger live_seq(s)[j]]
            0 <= j < live_seq(s).len() ==> exists|k: int|
                0 <= k < s.len() && (#[trigger] s[k]) == live_seq(s)[j],
    decreases s.len(),
{
    if s.len() == 0 {
    } else {
        let pre = s.drop_last();
        lemma_live_seq_basic(pre);
        let ls = live_seq(s);
        let lp = live_seq(pre);
        assert forall|j: int| 0 <= j < ls.len() implies (#[trigger] ls[j]).rooted && exists|k: int|
            0 <= k < s.len() && (#[trigger] s[k]) == ls[j] by {
            if j < lp.len() {
                assert(ls[j] == lp[j]);
                let k = choose|k: int| 0 <= k < pre.len() && (#[trigger] pre[k]) == lp[j];
                assert(s[k] == ls[j]);
            } else {
                assert(ls[j] == s.last());
                assert(s[s.len() - 1] == ls[j]);
            }
        }
    }
}

/// One step of walking the registry: extending the scanned prefix by one
/// entry extends its live entries by that entry exactly when it is rooted.
pub proof fn lemma_live_seq_step(s: Seq<Rooted>, i: int)
    requires
        0 <= i < s.len(),
    ensures
        live_seq(s.take(i + 1)) == if s[i].rooted {
            live_seq(s.take(i)).push(s[i])
        } else {
            live_seq(s.take(i))
        },
{
    let t1 = s.take(i + 1);
    assert(t1.drop_last() =~= s.take(i));
    assert(t1.last() == s[i]);
}

/// Strict orderings of the registry — of identities, and of base slots with
/// a gap of at least `d` — carry over to its live entries.
pub proof fn lemma_live_seq_ordered(s: Seq<Rooted>, d: int)
    requires
        forall|k1: int, k2: int|
            #![trigger s[k1], s[k2]]
            0 <= k1 < k2 < s.len() ==> s[k1].id < s[k2].id && s[k1].ptr.loc + d <= s[k2].ptr.loc,
    ensures
        forall|j1: int, j2: int|
            #![trigger live_seq(s)[j1], live_seq(s)[j2]]
            0 <= j1 < j2 < live_seq(s).len() ==> live_seq(s)[j1].id < live_seq(s)[j2].id
                && live_seq(s)[j1].ptr.loc + d <= live_seq(s)[j2].ptr.loc,
    decreases s.len(),
{
    if s.len() == 0 {
    } else {
        let pre = s.drop_last();
        assert forall|k1: int, k2: int|
            #![trigger pre[k1], pre[k2]]
            0 <= k1 < k2 < pre.len() implies pre[k1].id < pre[k2].id && pre[k1].ptr.loc + d
            <= pre[k2].ptr.loc by {
            assert(pre[k1] == s[k1]);
            assert(pre[k2] == s[k2]);
        }
        lemma_live_seq_ordered(pre, d);
        lemma_live_seq_basic(pre);
        let ls = live_seq(s);
        let lp = live_seq(pre);
        assert forall|j1: int, j2: int|
            #![trigger ls[j1], ls[j2]]
            0 <= j1 < j2 < ls.len() implies ls[j1].id < ls[j2].id && ls[j1].ptr.loc + d
            <= ls[j2].ptr.loc by {
            if j2 < lp.len() {
                assert(ls[j1] == lp[j1]);
                assert(ls[j2] == lp[j2]);
            } else {
                assert(ls[j2] == s.last());
                assert(ls[j1] == lp[j1]);
                let k = choose|k: int| 0 <= k < pre.len() && #[trigger] pre[k] == lp[j1];
                assert(s[k] == lp[j1]);
                assert(s[k].id < s[s.len() - 1].id);
                assert(s[k].ptr.loc + d <= s[s.len() - 1].ptr.loc);
            }
        }
    }
}

/// In a registry whose base slots keep a gap of at least `d`, the `k`-th
/// entry's base slot is at least `k * d`.
pub proof fn lemma_locs_spread(s: Seq<Rooted>, d: int, k: int)
    requires
        d >= 1,
        forall|k1: int, k2: int|
            #![trigger s[k1], s[k2]]
            0 <= k1 < k2 < s.len() ==> s[k1].ptr.loc + d <= s[k2].ptr.loc,
        0 <= k < s.len(),
    ensures
        s[k].ptr.loc >= k * d,
    decreases k,
{
    if k == 0 {
        assert(k * d == 0) by (nonlinear_arith)
            requires
                k == 0,
        ;
    } else {
        lemma_locs_spread(s, d, k - 1);
        assert(s[k - 1].ptr.loc + d <= s[k].ptr.loc);
        assert((k - 1) * d + d == k * d) by (nonlinear_arith);
    }
}

/// A registry whose entries all fit below `free` with footprint `d` holds
/// at most `free / d` entries: its length times `d` stays within `free`.
pub proof fn lemma_registry_fits(s: Seq<Rooted>, d: int, free: int)
    requires
        d >= 1,
        free >= 0,
        forall|k1: int, k2: int|
            #![trigger s[k1], s[k2]]
            0 <= k1 < k2 < s.len() ==> s[k1].ptr.loc + d <= s[k2].ptr.loc,
        forall|k: int| 0 <= k < s.len() ==> (#[trigger] s[k]).ptr.loc + d <= free,
    ensures
        s.len() * d <= free,
{
    if s.len() == 0 {
        assert(s.len() * d == 0) by (nonlinear_arith)
            requires
                s.len() == 0,
        ;
    } else {
        let n = s.len() as int;
        lemma_locs_spread(s, d, n - 1);
        assert((n - 1) * d + d == n * d) by (nonlinear_arith);
    }
}

/// With strictly increasing identities, the entry `find`ing `id` is the one
/// `idx_of` names.
pub proof fn lemma_idx_of(s: Seq<Rooted>, id: usize, k: int)
    requires
        forall|k1: int, k2: int|
            #![trigger s[k1], s[k2]]
            0 <= k1 < k2 < s.len() ==> s[k1].id < s[k2].id,
        0 <= k < s.len(),
        s[k].id == id,
    ensures
        contains_id(s, id),
        idx_of(s, id) == k,
        rec_of(s, id) == s[k],
{
    assert(contains_id(s, id));
    let k2 = idx_of(s, id);
    assert(0 <= k2 < s.len() && s[k2].id == id);
    if k2 < k {
        assert(s[k2].id < s[k].id);
    }
    if k < k2 {
        assert(s[k].id < s[k2].id);
    }
}

/// With base slots strictly apart, the live position `target_pos` names for
/// a relocated slot is the one that relocated it.
pub proof fn lemma_target_pos(live: Seq<Rooted>, d: int, idx: int, j: int)
    requires
        d >= 1,
        forall|j1: int, j2: int|
            #![trigger live[j1], live[j2]]
            0 <= j1 < j2 < live.len() ==> live[j1].ptr.loc + d <= live[j2].ptr.loc,
        0 <= j < live.len(),
        live[j].ptr.loc == idx,
    ensures
        relocated(live, idx),
        target_pos(live, idx) == j,
{
    assert(relocated(live, idx));
    let j2 = target_pos(live, idx);
    assert(0 <= j2 < live.len() && live[j2].ptr.loc == idx);
    if j2 < j {
        assert(live[j2].ptr.loc + d <= live[j].ptr.loc);
    }
    if j < j2 {
        assert(live[j].ptr.loc + d <= live[j2].ptr.loc);
    }
}

/// An identity survives into the live entries exactly when some
/// still-rooted registry entry carries it: a record released before a
/// collection is absent from what the collection keeps.
pub proof fn lemma_live_seq_ids(s: Seq<Rooted>, id: usize)
    ensures
        contains_id(live_seq(s), id) <==> contains_live(s, id),
    decreases s.len(),
{
    if s.len() == 0 {
    } else {
        let pre = s.drop_last();
        lemma_live_seq_ids(pre, id);
        let ls = live_seq(s);
        let lp = live_seq(pre);
        if contains_id(ls, id) {
            let j = choose|k: int| 0 <= k < ls.len() && (#[trigger] ls[k]).id == id;
            if j < lp.len() {
                assert(ls[j] == lp[j]);
                assert(contains_id(lp, id));
                let k = choose|k: int|
                    0 <= k < pre.len() && (#[trigger] pre[k]).id == id && pre[k].rooted;
                assert(s[k] == pre[k]);
                assert(contains_live(s, id));
            } else {
                assert(ls[j] == s.last());
                assert(s[s.len() - 1].id == id && s[s.len() - 1].rooted);
                assert(contains_live(s, id));
            }
        }
        if contains_live(s, id) {
            let k = choose|k: int| 0 <= k < s.len() && (#[trigger] s[k]).id == id && s[k].rooted;
            if k == s.len() - 1 {
                assert(ls[ls.len() - 1] == s.last());
                assert(contains_id(ls, id));
            } else {
                assert(pre[k] == s[k]);
                assert(contains_live(pre, id));
                assert(contains_id(lp, id));
                let j = choose|j: int| 0 <= j < lp.len() && (#[trigger] lp[j]).id == id;
                assert(ls[j] == lp[j]);
                assert(contains_id(ls, id));
            }
        }
    }
}

/// The collector runtime: the one live arena and the registry of rooted
/// records, with the allocation entry point and the collection trigger. An
/// explicit context object — callers pass it down rather than reach for an
/// ambient singleton.
pub struct Runtime<T> {
    space: Space<T>,
    records: Vec<Rooted>,
    next_id: usize,
}

impl<T> Runtime<T> {
    /// The arena currently holding every managed value.
    pub closed spec fn spec_space(&self) -> Space<T> {
        self.space
    }

    /// The registry of rooted records, in registration order.
    pub closed spec fn registry(&self) -> Seq<Rooted> {
        self.records@
    }

    /// The identity the next registered record will carry.
    pub closed spec fn next_id_spec(&self) -> usize {
        self.next_id
    }

    /// The value a registered record's reference designates.
    pub open spec fn value_of(&self, id: usize) -> T {
        self.spec_space().value_at(rec_of(self.registry(), id).ptr.loc as int)
    }

    /// The runtime's invariant: a sound arena of the fixed capacity holding
    /// no leftover forwarding entries, and a registry whose entries point at
    /// distinct stored values below the free index, with strictly increasing
    /// identities all below the next fresh one, and base slots a footprint
    /// apart.
    pub open spec fn wf(&self) -> bool {
        let d = spec_slot_count::<T>() as int;
        let s = self.spec_space();
        let reg = self.registry();
        &&& s.wf()
        &&& s.cap() == SPACE_SIZE
        &&& forall|i: int| 0 <= i < s.cap() ==> !(#[trigger] s.slots@[i] is Forwarded)
        &&& forall|k: int|
            0 <= k < reg.len() ==> {
                let rec = #[trigger] reg[k];
                &&& rec.ptr.loc == rec.ptr.bit_idx
                &&& rec.ptr.loc + d <= s.free()
                &&& s.slots@[rec.ptr.loc as int] is Object
                &&& rec.id < self.next_id_spec()
            }
        &&& forall|k1: int, k2: int|
            #![trigger reg[k1], reg[k2]]
            0 <= k1 < k2 < reg.len() ==> reg[k1].id < reg[k2].id && reg[k1].ptr.loc + d
                <= reg[k2].ptr.loc
    }

    /// Constructs a runtime with a fresh, empty arena and an empty registry.
    pub fn new() -> (r: Runtime<T>)
        ensures
            r.wf(),
            r.registry() == Seq::<Rooted>::empty(),
            r.next_id_spec() == 0,
            r.spec_space().cap() == SPACE_SIZE,
            r.spec_space().free() == 0,
    {
        Runtime { space: Space::new(SPACE_SIZE), records: Vec::new(), next_id: 0 }
    }

    /// The arena, for reading managed values through slot references.
    pub fn space(&self) -> (r: &Space<T>)
        ensures
            *r == self.spec_space(),
    {
        &self.space
    }

    /// How many records the registry currently holds, released ones that no
    /// collection has dropped yet included.
    pub fn registry_len(&self) -> (r: usize)
        ensures
            r == self.registry().len(),
    {
        self.records.len()
    }

    /// Finds the registry position of the record carrying `id`.
    #[verifier::loop_isolation(false)]
    fn find(&self, id: usize) -> (k: usize)
        requires
            self.wf(),
            contains_id(self.registry(), id),
        ensures
            k < self.registry().len(),
            k as int == idx_of(self.registry(), id),
            self.registry()[k as int].id == id,
    {
        let n = self.records.len();
        let mut k: usize = 0;
        while k < n
            invariant
                k <= n,
                forall|q: int| 0 <= q < k ==> (#[trigger] self.registry()[q]).id != id,
            decreases n - k,
        {
            if self.records[k].id == id {
                proof {
                    lemma_idx_of(self.registry(), id, k as int);
                }
                return k;
            }
            k = k + 1;
        }
        proof {
            let w = choose|q: int|
                0 <= q < self.registry().len() && (#[trigger] self.registry()[q]).id == id;
            assert(false);
        }
        vstd::pervasive::unreached()
    }
}

impl<T: Traceable> Runtime<T> {
    /// The collection transition from `pre` to `post`: the registry shrinks
    /// to exactly the still-rooted records in order, each relocated value
    /// sits at the packed position its live rank gives it, and every
    /// surviving value equals its old self with its cross-object references
    /// resolved through the old arena's forwarding entries.
    pub open spec fn collected(pre: Runtime<T>, post: Runtime<T>) -> bool {
        let live = live_seq(pre.registry());
        let d = spec_slot_count::<T>() as int;
        &&& post.next_id_spec() == pre.next_id_spec()
        &&& post.spec_space().cap() == pre.spec_space().cap()
        &&& post.spec_space().free() == live.len() * d
        &&& post.registry().len() == live.len()
        &&& forall|k: int|
            0 <= k < live.len() ==> #[trigger] post.registry()[k] == (Rooted {
                rooted: true,
                id: live[k].id,
                ptr: SpacePtr { loc: (k * d) as usize, bit_idx: (k * d) as usize },
            })
        &&& forall|k: int|
            0 <= k < live.len() ==> #[trigger] post.spec_space().value_at(k * d) == fwd_value(
                live,
                d,
                pre.spec_space().value_at(live[k].ptr.loc as int),
            )
    }

    /// The plain allocation transition from `pre` to `post`: `t` is stored
    /// at the old free index and a fresh, still-rooted record for it, under
    /// identity `id`, is appended to the registry.
    pub open spec fn extended(pre: Runtime<T>, post: Runtime<T>, t: T, id: usize) -> bool {
        let d = spec_slot_count::<T>() as int;
        let p = SpacePtr {
            loc: pre.spec_space().free_idx,
            bit_idx: pre.spec_space().free_idx,
        };
        &&& pre.spec_space().free() + d <= pre.spec_space().cap()
        &&& id == pre.next_id_spec()
        &&& post.next_id_spec() == pre.next_id_spec() + 1
        &&& post.registry() == pre.registry().push(Rooted { rooted: true, id, ptr: p })
        &&& Space::spec_allocated(pre.spec_space(), post.spec_space(), t, p)
    }

    /// Stores `t` at the arena's free index — which the caller has ensured
    /// is in capacity — and registers a fresh rooted record over it.
    fn register(&mut self, t: T) -> (r: Root)
        requires
            old(self).wf(),
            old(self).next_id_spec() < usize::MAX,
            old(self).spec_space().free() + spec_slot_count::<T>()
                <= old(self).spec_space().cap(),
        ensures
            final(self).wf(),
            r.id_spec() == old(self).next_id_spec(),
            Runtime::extended(*old(self), *final(self), t, r.id_spec()),
            contains_live(final(self).registry(), r.id_spec()),
            final(self).value_of(r.id_spec()) == t,
            final(self).next_id_spec() == old(self).next_id_spec() + 1,
    {
        let ghost pre = *self;
        let ghost d = spec_slot_count::<T>() as int;
        let p = match self.space.allocate(t) {
            Some(p) => p,
            None => vstd::pervasive::unreached(),
        };
        let id = self.next_id;
        self.next_id = id + 1;
        let rec = Rooted::new(p, id);
        self.records.push(rec);
        proof {
            let reg = self.registry();
            let n = reg.len() as int;
            assert(spec_slot_count::<T>() >= 1);
            assert forall|k: int| 0 <= k < n implies {
                let rc = #[trigger] reg[k];
                &&& rc.ptr.loc == rc.ptr.bit_idx
                &&& rc.ptr.loc + d <= self.spec_space().free()
                &&& self.spec_space().slots@[rc.ptr.loc as int] is Object
                &&& rc.id < self.next_id_spec()
            } by {
                if k < n - 1 {
                    assert(reg[k] == pre.registry()[k]);
                }
            }
            assert forall|k1: int, k2: int|
                #![trigger reg[k1], reg[k2]]
                0 <= k1 < k2 < n implies reg[k1].id < reg[k2].id && reg[k1].ptr.loc + d
                <= reg[k2].ptr.loc by {
                if k2 < n - 1 {
                    assert(reg[k1] == pre.registry()[k1]);
                    assert(reg[k2] == pre.registry()[k2]);
                } else {
                    if k1 < n - 1 {
                        assert(reg[k1] == pre.registry()[k1]);
                    }
                }
            }
            assert forall|i: int| 0 <= i < self.spec_space().cap() implies !(
            #[trigger] self.spec_space().slots@[i] is Forwarded) by {
                if i != pre.spec_space().free() {
                    assert(self.spec_space().slots@[i] == pre.spec_space().slots@[i]);
                }
            }
            assert(self.wf());
            lemma_idx_of(reg, id, n - 1);
            assert(contains_live(reg, id));
            assert(self.value_of(id) == t);
        }
        Root::from_id(id)
    }

    /// Allocates `t`, collecting first when the arena lacks room, registers
    /// a fresh rooted record over the stored value, and returns the record's
    /// root handle. The caller keeps the configuration legal: either the
    /// arena still has room, or the live set plus the new value fits in a
    /// fresh arena.
    pub fn cons(&mut self, t: T) -> (r: Root)
        requires
            old(self).wf(),
            old(self).next_id_spec() < usize::MAX,
            old(self).spec_space().free() + spec_slot_count::<T>()
                <= old(self).spec_space().cap() || (live_seq(old(self).registry()).len() + 1)
                * spec_slot_count::<T>() <= old(self).spec_space().cap(),
        ensures
            final(self).wf(),
            r.id_spec() == old(self).next_id_spec(),
            final(self).next_id_spec() == old(self).next_id_spec() + 1,
            contains_live(final(self).registry(), r.id_spec()),
            final(self).value_of(r.id_spec()) == t,
            old(self).spec_space().free() + spec_slot_count::<T>()
                <= old(self).spec_space().cap() ==> Runtime::extended(
                *old(self),
                *final(self),
                t,
                r.id_spec(),
            ),
            old(self).spec_space().free() + spec_slot_count::<T>()
                > old(self).spec_space().cap() ==> exists|mid: Runtime<T>|
                #[trigger] Runtime::collected(*old(self), mid) && Runtime::extended(
                    mid,
                    *final(self),
                    t,
                    r.id_spec(),
                ),
    {
        let ghost pre = *self;
        let ghost d = spec_slot_count::<T>() as int;
        let dx = slot_count::<T>();
        if dx <= self.space.size - self.space.free_idx {
            self.register(t)
        } else {
            self.gc();
            let ghost mid = *self;
            proof {
                let live = live_seq(pre.registry());
                assert((live.len() + 1) * d <= pre.spec_space().cap());
                assert(live.len() * d + d == (live.len() + 1) * d) by (nonlinear_arith);
            }
            let r = self.register(t);
            proof {
                assert(Runtime::collected(pre, mid));
                assert(Runtime::extended(mid, *self, t, r.id_spec()));
            }
            r
        }
    }

    /// Reads the value the root handle `r` keeps alive.
    pub fn borrow_root<'a>(&'a self, r: &Root) -> (v: &'a T)
        requires
            self.wf(),
            contains_live(self.registry(), r.id_spec()),
        ensures
            *v == self.value_of(r.id_spec()),
    {
        let p = self.ptr_of_root(r);
        proof {
            assert(spec_slot_count::<T>() >= 1);
        }
        self.space.borrow(&p)
    }

    /// The slot reference the record of root handle `r` currently carries.
    pub fn ptr_of_root(&self, r: &Root) -> (p: SpacePtr)
        requires
            self.wf(),
            contains_live(self.registry(), r.id_spec()),
        ensures
            p == rec_of(self.registry(), r.id_spec()).ptr,
            self.spec_space().slots@[p.loc as int] is Object,
            p.loc + spec_slot_count::<T>() <= self.spec_space().free(),
            p.loc == p.bit_idx,
    {
        proof {
            let w = choose|k: int|
                0 <= k < self.registry().len() && (#[trigger] self.registry()[k]).id
                    == r.id_spec() && self.registry()[k].rooted;
            assert(contains_id(self.registry(), r.id_spec()));
        }
        let k = self.find(r.raw_id());
        self.records[k].ptr
    }

    /// Marks the record owned by root handle `r` as released: its `rooted`
    /// flag flips to false, and the next collection drops it.
    pub fn release_root(&mut self, r: Root)
        requires
            old(self).wf(),
            contains_live(old(self).registry(), r.id_spec()),
        ensures
            final(self).wf(),
            final(self).registry() == old(self).registry().update(
                idx_of(old(self).registry(), r.id_spec()),
                Rooted {
                    rooted: false,
                    id: r.id_spec(),
                    ptr: rec_of(old(self).registry(), r.id_spec()).ptr,
                },
            ),
            final(self).spec_space() == old(self).spec_space(),
            final(self).next_id_spec() == old(self).next_id_spec(),
    {
        let ghost pre = *self;
        let ghost d = spec_slot_count::<T>() as int;
        proof {
            let w = choose|k: int|
                0 <= k < self.registry().len() && (#[trigger] self.registry()[k]).id
                    == r.id_spec() && self.registry()[k].rooted;
            assert(contains_id(self.registry(), r.id_spec()));
        }
        let k = self.find(r.raw_id());
        let rec = self.records[k];
        self.records[k] = Rooted { rooted: false, id: rec.id, ptr: rec.ptr };
        proof {
            let reg = self.registry();
            let n = reg.len() as int;
            assert forall|q: int| 0 <= q < n implies {
                let rc = #[trigger] reg[q];
                &&& rc.ptr.loc == rc.ptr.bit_idx
                &&& rc.ptr.loc + d <= self.spec_space().free()
                &&& self.spec_space().slots@[rc.ptr.loc as int] is Object
                &&& rc.id < self.next_id_spec()
            } by {
                if q != k as int {
                    assert(reg[q] == pre.registry()[q]);
                }
            }
            assert forall|k1: int, k2: int|
                #![trigger reg[k1], reg[k2]]
                0 <= k1 < k2 < n implies reg[k1].id < reg[k2].id && reg[k1].ptr.loc + d
                <= reg[k2].ptr.loc by {
                assert(pre.registry()[k1].id < pre.registry()[k2].id);
                assert(pre.registry()[k1].ptr.loc + d <= pre.registry()[k2].ptr.loc);
                if k1 != k as int {
                    assert(reg[k1] == pre.registry()[k1]);
                }
                if k2 != k as int {
                    assert(reg[k2] == pre.registry()[k2]);
                }
            }
            assert(self.wf());
        }
    }

    /// Runs one collection cycle: relocates every still-rooted record's
    /// value into a fresh arena of the same capacity, leaves forwarding
    /// entries in the old arena, resolves every survivor's cross-object
    /// references against them, and replaces the arena and the registry
    /// wholesale. Records released since the previous cycle are dropped.
    #[verifier::loop_isolation(false)]
    #[verifier::rlimit(100)]
    pub fn gc(&mut self)
        requires
            old(self).wf(),
        ensures
            final(self).wf(),
            Runtime::collected(*old(self), *final(self)),
    {
        let ghost pre = *self;
        let ghost d = spec_slot_count::<T>() as int;
        let ghost reg = pre.registry();
        let ghost live = live_seq(reg);
        proof {
            assert(spec_slot_count::<T>() >= 1);
            lemma_live_seq_basic(reg);
            lemma_live_seq_ordered(reg, d);
            lemma_registry_fits(reg, d, pre.spec_space().free());
        }
        let cap = self.space.size;
        let mut new_space: Space<T> = Space::new(cap);
        let mut new_records: Vec<Rooted> = Vec::new();
        let ghost mut lp: Seq<Rooted> = Seq::empty();
        proof {
            assert(reg.take(0).len() == 0);
            assert(lp == live_seq(reg.take(0)));
        }
        let n = self.records.len();
        let mut i: usize = 0;
        while i < n
            invariant
                i <= n,
                lp == live_seq(reg.take(i as int)),
                lp.len() <= i,
                self.records@ == reg,
                self.next_id == pre.next_id_spec(),
                self.space.wf(),
                self.space.size == pre.spec_space().size,
                self.space.free_idx == pre.spec_space().free_idx,
                forall|x: int|
                    #![trigger self.space.slots@[x]]
                    #![trigger self.space.fwds()[x]]
                    0 <= x < cap && !relocated(lp, x) ==> self.space.slots@[x]
                        == pre.spec_space().slots@[x] && self.space.fwds()[x]
                        == pre.spec_space().fwds()[x],
                forall|j: int|
                    0 <= j < lp.len() ==> self.space.slots@[(#[trigger] lp[j]).ptr.loc as int]
                        == Slot::<T>::Forwarded((j * d) as usize) && self.space.fwds()[lp[j].ptr.loc as int],
                new_space.wf(),
                new_space.cap() == cap,
                new_space.free() == lp.len() * d,
                forall|x: int| 0 <= x < cap ==> !(#[trigger] new_space.fwds()[x]),
                forall|j: int|
                    0 <= j < lp.len() ==> new_space.slots@[j * d] == Slot::Object(
                        pre.spec_space().value_at((#[trigger] lp[j]).ptr.loc as int),
                    ),
                new_records@.len() == lp.len(),
                forall|j: int|
                    0 <= j < lp.len() ==> new_records@[j] == (Rooted {
                        rooted: true,
                        id: (#[trigger] lp[j]).id,
                        ptr: SpacePtr { loc: (j * d) as usize, bit_idx: (j * d) as usize },
                    }),
            decreases n - i,
        {
            let mut rec = self.records[i];
            proof {
                assert(reg[i as int] == rec);
                lemma_live_seq_step(reg, i as int);
            }
            if rec.rooted {
                proof {
                    lemma_live_seq_basic(reg.take(i as int));
                    assert forall|j: int| 0 <= j < lp.len() implies (#[trigger] lp[j]).ptr.loc + d
                        <= rec.ptr.loc by {
                        let k = choose|k: int|
                            0 <= k < reg.take(i as int).len() && (#[trigger] reg.take(i as int)[k])
                                == lp[j];
                        assert(reg[k] == lp[j]);
                    }
                    assert(!relocated(lp, rec.ptr.loc as int));
                    assert(self.space.slots@[rec.ptr.loc as int] is Object);
                    assert(lp.len() + 1 <= reg.len());
                    assert((lp.len() + 1) * d <= reg.len() * d) by (nonlinear_arith)
                        requires
                            lp.len() + 1 <= reg.len(),
                            d >= 1,
                    ;
                    assert(lp.len() * d + d == (lp.len() + 1) * d) by (nonlinear_arith);
                }
                new_space.realloc(&mut rec, &mut self.space);
                new_records.push(rec);
                proof {
                    let lp2 = lp.push(reg[i as int]);
                    let oldloc = reg[i as int].ptr.loc as int;
                    assert(lp2[lp.len() as int] == reg[i as int]);
                    assert forall|x: int|
                        #![trigger self.space.slots@[x]]
                        #![trigger self.space.fwds()[x]]
                        0 <= x < cap && !relocated(lp2, x) implies self.space.slots@[x]
                        == pre.spec_space().slots@[x] && self.space.fwds()[x]
                        == pre.spec_space().fwds()[x] by {
                        assert(x != oldloc);
                        assert(!relocated(lp, x)) by {
                            if relocated(lp, x) {
                                let j = choose|j: int|
                                    0 <= j < lp.len() && (#[trigger] lp[j]).ptr.loc == x;
                                assert(lp2[j] == lp[j]);
                                assert(relocated(lp2, x));
                            }
                        }
                    }
                    assert forall|j: int|
                        0 <= j < lp2.len() implies self.space.slots@[(#[trigger] lp2[j]).ptr.loc as int]
                        == Slot::<T>::Forwarded((j * d) as usize) && self.space.fwds()[lp2[j].ptr.loc as int] by {
                        if j < lp.len() {
                            assert(lp2[j] == lp[j]);
                            assert(lp[j].ptr.loc + d <= oldloc);
                        } else {
                            assert(lp2[j] == reg[i as int]);
                        }
                    }
                    assert forall|j: int|
                        0 <= j < lp2.len() implies new_space.slots@[j * d] == Slot::Object(
                        pre.spec_space().value_at((#[trigger] lp2[j]).ptr.loc as int),
                    ) by {
                        if j < lp.len() {
                            assert(lp2[j] == lp[j]);
                            assert(j * d < lp.len() * d) by (nonlinear_arith)
                                requires
                                    0 <= j < lp.len(),
                                    d >= 1,
                            ;
                        }
                    }
                    lp = lp2;
                }
            }
            i = i + 1;
        }
        proof {
            assert(reg.take(n as int) =~= reg);
            assert(lp == live);
            assert(live.len() * d <= reg.len() * d) by (nonlinear_arith)
                requires
                    live.len() <= reg.len(),
                    d >= 1,
            ;
        }
        let m = new_records.len();
        let ghost mid_space = self.space;
        let mut k: usize = 0;
        while k < m
            invariant
                k <= m,
                m == live.len(),
                self.space == mid_space,
                self.records@ == reg,
                self.next_id == pre.next_id_spec(),
                new_records@.len() == m,
                new_space.wf(),
                new_space.cap() == cap,
                new_space.free() == m * d,
                forall|x: int| 0 <= x < cap ==> !(#[trigger] new_space.fwds()[x]),
                forall|j: int|
                    0 <= j < live.len() ==> new_space.slots@[j * d] == Slot::Object(
                        if j < k {
                            fwd_value(
                                live,
                                d,
                                pre.spec_space().value_at((#[trigger] live[j]).ptr.loc as int),
                            )
                        } else {
                            pre.spec_space().value_at(live[j].ptr.loc as int)
                        },
                    ),
            decreases m - k,
        {
            let rec = new_records[k];
            proof {
                assert((k as int) * d >= 0) by (nonlinear_arith)
                    requires
                        k >= 0,
                        d >= 1,
                ;
                assert((k as int) * d + d == (k as int + 1) * d) by (nonlinear_arith);
                assert((k as int + 1) * d <= m * d) by (nonlinear_arith)
                    requires
                        k as int + 1 <= m,
                        d >= 1,
                ;
                assert(lp[k as int] == live[k as int]);
                assert(new_records@[k as int] == (Rooted {
                    rooted: true,
                    id: live[k as int].id,
                    ptr: SpacePtr {
                        loc: ((k as int) * d) as usize,
                        bit_idx: ((k as int) * d) as usize,
                    },
                }));
                assert(rec.ptr.loc == (k as int) * d);
                assert(new_space.slots@[rec.ptr.loc as int] is Object);
            }
            let mut v = new_space.borrow(&rec.ptr).duplicate();
            let ghost v0 = v;
            let mut subs = v.subfields();
            let ghost refs0 = v0.refs();
            let sn = subs.len();
            let mut q: usize = 0;
            while q < sn
                invariant
                    q <= sn,
                    sn == subs@.len(),
                    subs@.len() == refs0.len(),
                    self.space == mid_space,
                    forall|x: int| 0 <= x < q ==> (#[trigger] subs@[x]) == fwd_ref(live, d, refs0[x]),
                    forall|x: int| q <= x < sn ==> (#[trigger] subs@[x]) == refs0[x],
                decreases sn - q,
            {
                let mut h = subs[q];
                self.space.forward(&mut h);
                proof {
                    let h0 = refs0[q as int];
                    let idx = h0.ptr.bit_idx as int;
                    if relocated(live, idx) {
                        let j = choose|j: int|
                            0 <= j < live.len() && (#[trigger] live[j]).ptr.loc == idx;
                        lemma_target_pos(live, d, idx, j);
                        assert(self.space.slots@[idx] == Slot::<T>::Forwarded((j * d) as usize));
                        assert(self.space.fwds()[idx]);
                        let w = choose|w: int| 0 <= w < reg.len() && (#[trigger] reg[w]) == live[j];
                        assert(idx + d <= pre.spec_space().free());
                        assert(h == fwd_ref(live, d, h0));
                    } else {
                        if idx < cap {
                            assert(self.space.fwds()[idx] == pre.spec_space().fwds()[idx]);
                            assert(!(pre.spec_space().slots@[idx] is Forwarded));
                            assert(!pre.spec_space().fwds()[idx]);
                        }
                        assert(h == fwd_ref(live, d, h0));
                    }
                }
                subs[q] = h;
                q = q + 1;
            }
            proof {
                assert(subs@ =~= refs0.map_values(|h: Heap| fwd_ref(live, d, h)));
            }
            v.set_subfields(subs);
            let loc = rec.ptr.inner();
            new_space.set_object(loc, v);
            proof {
                assert(new_space.slots@[loc as int] == Slot::Object(
                    fwd_value(live, d, pre.spec_space().value_at(live[k as int].ptr.loc as int)),
                ));
                assert forall|j: int|
                    0 <= j < live.len() implies new_space.slots@[j * d] == Slot::Object(
                    if j < k as int + 1 {
                        fwd_value(
                            live,
                            d,
                            pre.spec_space().value_at((#[trigger] live[j]).ptr.loc as int),
                        )
                    } else {
                        pre.spec_space().value_at(live[j].ptr.loc as int)
                    },
                ) by {
                    assert(0 <= j * d && j * d + d <= m * d) by (nonlinear_arith)
                        requires
                            0 <= j < m,
                            d >= 1,
                    ;
                    if j != k as int {
                        assert(j * d != (k as int) * d) by (nonlinear_arith)
                            requires
                                j != k as int,
                                d >= 1,
                                j >= 0,
                                k >= 0,
                        ;
                    }
                }
            }
            k = k + 1;
        }
        self.records = new_records;
        self.space = new_space;
        proof {
            let post_reg = self.registry();
            assert forall|x: int| 0 <= x < self.spec_space().cap() implies !(
            #[trigger] self.spec_space().slots@[x] is Forwarded) by {
                assert(!self.spec_space().fwds()[x]);
            }
            assert forall|x: int| 0 <= x < post_reg.len() implies {
                let rc = #[trigger] post_reg[x];
                &&& rc.ptr.loc == rc.ptr.bit_idx
                &&& rc.ptr.loc + d <= self.spec_space().free()
                &&& self.spec_space().slots@[rc.ptr.loc as int] is Object
                &&& rc.id < self.next_id_spec()
            } by {
                assert((x + 1) * d <= m * d) by (nonlinear_arith)
                    requires
                        x + 1 <= m,
                        d >= 1,
                ;
                assert(x * d + d == (x + 1) * d) by (nonlinear_arith);
                let w = choose|w: int| 0 <= w < reg.len() && (#[trigger] reg[w]) == live[x];
            }
            assert forall|k1: int, k2: int|
                #![trigger post_reg[k1], post_reg[k2]]
                0 <= k1 < k2 < post_reg.len() implies post_reg[k1].id < post_reg[k2].id
                && post_reg[k1].ptr.loc + d <= post_reg[k2].ptr.loc by {
                assert(live[k1] == live_seq(reg)[k1]);
                assert(live[k2] == live_seq(reg)[k2]);
                assert(lp[k1] == live[k1]);
                assert(lp[k2] == live[k2]);
                assert(live[k1].id < live[k2].id);
                assert(0 <= k1 * d && k1 * d + d <= m * d) by (nonlinear_arith)
                    requires
                        0 <= k1 < m,
                        d >= 1,
                ;
                assert(0 <= k2 * d && k2 * d + d <= m * d) by (nonlinear_arith)
                    requires
                        0 <= k2 < m,
                        d >= 1,
                ;
                assert(k1 * d + d <= k2 * d) by (nonlinear_arith)
                    requires
                        k1 < k2,
                        d >= 1,
                ;
            }
            assert(self.wf());
            assert(Runtime::collected(pre, *self));
        }
    }
}

/// A collection keeps an identity in the registry exactly when some
/// still-rooted record carried it before the cycle: a root handle released
/// before a collection causes its record to be absent afterwards, and a
/// handle still held keeps its record present.
pub proof fn lemma_collection_membership<T: Traceable>(
    pre: Runtime<T>,
    post: Runtime<T>,
    id: usize,
)
    requires
        pre.wf(),
        Runtime::collected(pre, post),
    ensures
        contains_id(post.registry(), id) <==> contains_live(pre.registry(), id),
{
    lemma_live_seq_ids(pre.registry(), id);
    let live = live_seq(pre.registry());
    if contains_id(live, id) {
        let k = choose|k: int| 0 <= k < live.len() && (#[trigger] live[k]).id == id;
        assert(post.registry()[k].id == id);
        assert(contains_id(post.registry(), id));
    }
    if contains_id(post.registry(), id) {
        let k = choose|k: int|
            0 <= k < post.registry().len() && (#[trigger] post.registry()[k]).id == id;
        assert(live[k].id == id);
        assert(contains_id(live, id));
    }
}

/// Every root handle still held across a collection cycle dereferences,
/// after the cycle, to its pre-cycle value with each of its cross-object
/// references resolved through the forwarding map; and a reference that
/// pointed at the handle's old slot is resolved by that same map to the
/// record's post-cycle slot.
pub proof fn lemma_collection_preserves_rooted<T: Traceable>(
    pre: Runtime<T>,
    post: Runtime<T>,
    id: usize,
)
    requires
        pre.wf(),
        Runtime::collected(pre, post),
        contains_live(pre.registry(), id),
    ensures
        contains_live(post.registry(), id),
        post.value_of(id) == fwd_value(
            live_seq(pre.registry()),
            spec_slot_count::<T>() as int,
            pre.value_of(id),
        ),
        fwd_ref(
            live_seq(pre.registry()),
            spec_slot_count::<T>() as int,
            Heap { ptr: rec_of(pre.registry(), id).ptr },
        ).ptr == rec_of(post.registry(), id).ptr,
{
    let reg = pre.registry();
    let live = live_seq(reg);
    let d = spec_slot_count::<T>() as int;
    assert(spec_slot_count::<T>() >= 1);
    lemma_live_seq_basic(reg);
    lemma_live_seq_ordered(reg, d);
    lemma_registry_fits(reg, d, pre.spec_space().free());
    lemma_live_seq_ids(reg, id);
    assert(contains_id(live, id));
    let j = choose|k: int| 0 <= k < live.len() && (#[trigger] live[k]).id == id;
    assert(post.registry()[j].id == id && post.registry()[j].rooted);
    assert(contains_live(post.registry(), id));
    assert forall|k1: int, k2: int|
        #![trigger post.registry()[k1], post.registry()[k2]]
        0 <= k1 < k2 < post.registry().len() implies post.registry()[k1].id
        < post.registry()[k2].id by {
        assert(live[k1] == live_seq(reg)[k1]);
        assert(live[k2] == live_seq(reg)[k2]);
        assert(post.registry()[k1].id == live[k1].id);
        assert(post.registry()[k2].id == live[k2].id);
    }
    lemma_idx_of(post.registry(), id, j);
    let k0 = choose|k: int| 0 <= k < reg.len() && (#[trigger] reg[k]).id == id && reg[k].rooted;
    lemma_idx_of(reg, id, k0);
    let w = choose|w: int| 0 <= w < reg.len() && (#[trigger] reg[w]) == live[j];
    lemma_idx_of(reg, id, w);
    assert(reg[k0] == live[j]);
    assert(0 <= j * d && j * d + d <= live.len() * d) by (nonlinear_arith)
        requires
            0 <= j < live.len(),
            d >= 1,
    ;
    assert(live.len() * d <= reg.len() * d) by (nonlinear_arith)
        requires
            live.len() <= reg.len(),
            d >= 1,
    ;
    assert(rec_of(post.registry(), id).ptr.loc == (j * d) as usize);
    assert(post.value_of(id) == post.spec_space().value_at(j * d));
    assert(post.spec_space().value_at(j * d) == fwd_value(
        live,
        d,
        pre.spec_space().value_at(live[j].ptr.loc as int),
    ));
    assert(pre.value_of(id) == pre.spec_space().value_at(live[j].ptr.loc as int));
    lemma_target_pos(live, d, live[j].ptr.loc as int, j);
    assert(rec_of(pre.registry(), id).ptr.loc == rec_of(pre.registry(), id).ptr.bit_idx);
    assert(fwd_ref(live, d, Heap { ptr: rec_of(pre.registry(), id).ptr }).ptr == (SpacePtr {
        loc: (j * d) as usize,
        bit_idx: (j * d) as usize,
    }));
}

/// Triggers a collection cycle on the runtime now.
pub fn gc_now<T: Traceable>(rt: &mut Runtime<T>)
    requires
        old(rt).wf(),
    ensures
        final(rt).wf(),
        Runtime::collected(*old(rt), *final(rt)),
{
    rt.gc()
}

} // verus!
