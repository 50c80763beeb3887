//! Dense, fixed-length bit storage addressed by slot index.

use vstd::prelude::*;

verus! {

/// A fixed-size flag array: `size` bits, each individually readable and
/// writable in O(1). Backs the per-slot metadata of an arena. The bits are
/// packed into 64-bit words; the packing is not observable through the
/// interface, whose view is a plain sequence of booleans.
pub struct BitMap {
    words: Vec<u64>,
    size: usize,
}

/// The flag stored at bit position `i` of the packed words.
spec fn spec_bit(words: Seq<u64>, i: int) -> bool {
    (words[i / 64] >> ((i % 64) as u64)) & 1 == 1
}

impl View for BitMap {
    type V = Seq<bool>;

    closed spec fn view(&self) -> Seq<bool> {
        Seq::new(self.size as nat, |i: int| spec_bit(self.words@, i))
    }
}

impl BitMap {
    /// The backing words cover every addressable bit.
    pub closed spec fn wf(&self) -> bool {
        &&& self.size > 0
        &&& self.words@.len() == (self.size - 1) / 64 + 1
    }

    /// Any in-range bit position lies inside the backing words.
    proof fn lemma_word_index_in_range(&self, i: int)
        requires
            self.wf(),
            0 <= i < self.size,
        ensures
            0 <= i / 64 < self.words@.len(),
            0 <= i % 64 < 64,
    {
        assert(i / 64 <= (self.size - 1) / 64) by (nonlinear_arith)
            requires
                0 <= i <= self.size - 1,
        ;
        assert(i / 64 >= 0 && 0 <= i % 64 < 64) by (nonlinear_arith)
            requires
                i >= 0,
        ;
    }

    /// Constructs a bit map of `size` bits, all unset.
    pub fn new(size: usize) -> (r: BitMap)
        requires
            size > 0,
        ensures
            r.wf(),
            r@.len() == size,
            forall|i: int| 0 <= i < size ==> !r@[i],
    {
        let word_count = (size - 1) / 64 + 1;
        let mut words: Vec<u64> = Vec::new();
        let mut k: usize = 0;
        while k < word_count
            invariant
                k <= word_count,
                words@.len() == k,
                forall|j: int| 0 <= j < k ==> words@[j] == 0u64,
            decreases word_count - k,
        {
            words.push(0);
            k = k + 1;
        }
        let r = BitMap { words, size };
        proof {
            assert forall|i: int| 0 <= i < size implies !r@[i] by {
                r.lemma_word_index_in_range(i);
                let s = (i % 64) as u64;
                assert((0u64 >> s) & 1 != 1) by (bit_vector);
            }
        }
        r
    }

    /// The number of addressable bits.
    pub fn size(&self) -> (r: usize)
        ensures
            r == self@.len(),
    {
        self.size
    }

    /// Reads the flag at `idx`.
    pub fn get(&self, idx: usize) -> (r: bool)
        requires
            self.wf(),
            idx < self@.len(),
        ensures
            r == self@[idx as int],
    {
        proof {
            self.lemma_word_index_in_range(idx as int);
        }
        let w = self.words[idx / 64];
        (w >> ((idx % 64) as u64)) & 1 == 1
    }

    /// Sets the flag at `idx`; every other flag is unaffected.
    pub fn set(&mut self, idx: usize)
        requires
            old(self).wf(),
            idx < old(self)@.len(),
        ensures
            final(self).wf(),
            final(self)@ == old(self)@.update(idx as int, true),
    {
        proof {
            self.lemma_word_index_in_range(idx as int);
        }
        let wi = idx / 64;
        let s = (idx % 64) as u64;
        let w = self.words[wi];
        self.words[wi] = w | (1u64 << s);
        proof {
            self.lemma_update_one_word(*old(self), idx as int, w | (1u64 << s), true);
        }
    }

    /// Clears the flag at `idx`; every other flag is unaffected.
    pub fn unset(&mut self, idx: usize)
        requires
            old(self).wf(),
            idx < old(self)@.len(),
        ensures
            final(self).wf(),
            final(self)@ == old(self)@.update(idx as int, false),
    {
        proof {
            self.lemma_word_index_in_range(idx as int);
        }
        let wi = idx / 64;
        let s = (idx % 64) as u64;
        let w = self.words[wi];
        self.words[wi] = w & !(1u64 << s);
        proof {
            self.lemma_update_one_word(*old(self), idx as int, w & !(1u64 << s), false);
        }
    }

    /// Overwriting the word that holds bit `idx` with `nw` changes the view at
    /// `idx` alone, provided `nw` agrees with the old word on the other bit
    /// lanes and carries `v` in lane `idx % 64`.
    proof fn lemma_update_one_word(&self, prev: BitMap, idx: int, nw: u64, v: bool)
        requires
            prev.wf(),
            0 <= idx < prev.size,
            self.size == prev.size,
            self.words@ == prev.words@.update(idx / 64, nw),
            ({
                let ow = prev.words@[idx / 64];
                let s = (idx % 64) as u64;
                (v ==> nw == ow | (1u64 << s)) && (!v ==> nw == ow & !(1u64 << s))
            }),
        ensures
            self.wf(),
            self@ == prev@.update(idx, v),
    {
        prev.lemma_word_index_in_range(idx);
        let ow = prev.words@[idx / 64];
        let s = (idx % 64) as u64;
        assert(s < 64);
        assert forall|j: int| 0 <= j < self.size implies self@[j] == prev@.update(idx, v)[j] by {
            prev.lemma_word_index_in_range(j);
            self.lemma_word_index_in_range(j);
            let t = (j % 64) as u64;
            if j == idx {
                if v {
                    assert(((ow | (1u64 << s)) >> s) & 1 == 1) by (bit_vector)
                        requires
                            s < 64,
                    ;
                } else {
                    assert(((ow & !(1u64 << s)) >> s) & 1 != 1) by (bit_vector)
                        requires
                            s < 64,
                    ;
                }
            } else if j / 64 == idx / 64 {
                assert(t != s) by (nonlinear_arith)
                    requires
                        j != idx,
                        j / 64 == idx / 64,
                        t == (j % 64) as u64,
                        s == (idx % 64) as u64,
                        0 <= j,
                        0 <= idx,
                        0 <= j % 64 < 64,
                        0 <= idx % 64 < 64,
                ;
                assert(((ow | (1u64 << s)) >> t) & 1 == (ow >> t) & 1) by (bit_vector)
                    requires
                        s < 64,
                        t < 64,
                        t != s,
                ;
                assert(((ow & !(1u64 << s)) >> t) & 1 == (ow >> t) & 1) by (bit_vector)
                    requires
                        s < 64,
                        t < 64,
                        t != s,
                ;
            } else {
                assert(self.words@[j / 64] == prev.words@[j / 64]);
            }
        }
        assert(self@ =~= prev@.update(idx, v));
    }
}

} // verus!
