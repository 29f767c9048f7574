use vstd::prelude::*;

use crate::engine::{add_region, class_for, coalesce_up, new_lists, take_block};
use crate::model::{
    all_sorted, blk_aligned, blk_disjoint, blk_fits, blk_free_disjoint, coalesce, free_amount,
    free_disjoint, lemma_aligned_weaken, lemma_amount_nonneg, lemma_pow2i_mono,
    lemma_req_class_bounds, lemma_shl_pow2, lemma_sum_sizes_nonneg, lemma_sum_sizes_remove,
    lemma_sum_vals_le_sizes, lemma_sum_vals_nonneg, lemma_sum_vals_remove, lists_wf,
    live_free_disjoint, live_wf, pow2i, region_free_disjoint, req_class, sum_sizes, sum_vals,
    take_shape, views, buddy_free, decomposition, lemma_coalesce_buddy_free,
    lemma_take_buddy_free,
};

verus! {

/// Failure of a heap request: no free block of a suitable class exists.
#[derive(Clone, Copy, Debug, PartialEq, Eq, Structural)]
pub struct AllocErr;

/// The machine word size in bytes: the smallest block the heap hands out.
pub open spec fn word_size() -> int {
    usize::BITS as int / 8
}

/// The class of a one-word block: log2 of the word size.
pub open spec fn word_log() -> int {
    if usize::BITS == 32 {
        2
    } else {
        3
    }
}

/// The effective block size of a request: the size rounded up to at least
/// the alignment and at least one machine word.
pub open spec fn effective_size(size: int, align: int) -> int {
    let m = if size > align {
        size
    } else {
        align
    };
    if m > word_size() {
        m
    } else {
        word_size()
    }
}

/// The class serving a request: the smallest class whose block size is at
/// least the effective size (32 when the request is too large to serve).
pub open spec fn heap_class(size: int, align: int) -> int {
    req_class(effective_size(size, align), 0)
}

/// `n` is a power of two.
pub open spec fn is_pow2(n: int) -> bool {
    exists|k: int| 0 <= k < 64 && n == pow2i(k)
}

/// A byte-granularity heap allocator using the buddy system with 32 size
/// classes. Free blocks of each class are kept as a sorted list of
/// addresses.
pub struct Heap {
    free_list: Vec<Vec<usize>>,
    user: usize,
    allocated: usize,
    total: usize,
    live: Ghost<Seq<(usize, usize)>>,
    live_sizes: Ghost<Seq<usize>>,
}

impl Heap {
    /// The free blocks: for each class k, the sorted addresses of the free
    /// blocks of 2^k bytes.
    pub closed spec fn free(self) -> Seq<Seq<usize>> {
        views(self.free_list@)
    }

    /// The outstanding allocations, as (address, class) pairs.
    pub closed spec fn live_blocks(self) -> Seq<(usize, usize)> {
        self.live@
    }

    /// The original request size of each outstanding allocation.
    pub closed spec fn live_req_sizes(self) -> Seq<usize> {
        self.live_sizes@
    }

    pub closed spec fn user_spec(self) -> usize {
        self.user
    }

    pub closed spec fn allocated_spec(self) -> usize {
        self.allocated
    }

    pub closed spec fn total_spec(self) -> usize {
        self.total
    }

    pub open spec fn wf(self) -> bool {
        &&& lists_wf(self.free())
        &&& all_sorted(self.free())
        &&& free_disjoint(self.free())
        &&& live_wf(self.live_blocks())
        &&& live_free_disjoint(self.free(), self.live_blocks())
        &&& self.live_req_sizes().len() == self.live_blocks().len()
        &&& forall|j: int|
            0 <= j < self.live_blocks().len() ==> (#[trigger] self.live_req_sizes()[j]) <= pow2i(
                self.live_blocks()[j].1 as int,
            )
        &&& self.user_spec() == sum_vals(self.live_req_sizes())
        &&& self.allocated_spec() == sum_sizes(self.live_blocks())
        &&& self.total_spec() == self.allocated_spec() + free_amount(self.free())
    }

    /// Create an empty heap.
    pub fn new() -> (r: Heap)
        ensures
            r.wf(),
            r.total_spec() == 0,
            r.allocated_spec() == 0,
            r.user_spec() == 0,
            forall|k: int| 0 <= k < 32 ==> r.free()[k].len() == 0,
            r.live_blocks() == Seq::<(usize, usize)>::empty(),
    {
        let fl = new_lists();
        Heap {
            free_list: fl,
            user: 0,
            allocated: 0,
            total: 0,
            live: Ghost(Seq::empty()),
            live_sizes: Ghost(Seq::empty()),
        }
    }

    /// Add the byte range [start, end) to the heap. The range is decomposed
    /// into maximally aligned blocks; a tail smaller than one word is left
    /// unused.
    pub fn add_to_heap(&mut self, start: usize, end: usize)
        requires
            old(self).wf(),
            start <= end,
            end - start < pow2i(32),
            old(self).total_spec() + (end - start) <= usize::MAX,
            region_free_disjoint(old(self).free(), start as int, end as int),
            forall|j: int|
                0 <= j < old(self).live_blocks().len() ==> (#[trigger] old(
                    self,
                ).live_blocks()[j]).0 + pow2i(old(self).live_blocks()[j].1 as int) <= start || end
                    <= old(self).live_blocks()[j].0,
        ensures
            final(self).wf(),
            old(self).total_spec() <= final(self).total_spec() <= old(self).total_spec() + (end
                - start),
            (end - start) - (final(self).total_spec() - old(self).total_spec()) < word_size(),
            final(self).allocated_spec() == old(self).allocated_spec(),
            final(self).user_spec() == old(self).user_spec(),
            final(self).live_blocks() == old(self).live_blocks(),
            final(self).live_req_sizes() == old(self).live_req_sizes(),
            free_amount(final(self).free()) == free_amount(old(self).free()) + (final(self).total_spec()
                - old(self).total_spec()),
            forall|k: int, x: usize|
                0 <= k < 32 ==> ((#[trigger] final(self).free()[k].contains(x)) <==> old(
                    self,
                ).free()[k].contains(x) || decomposition(
                    start as int,
                    end as int,
                    word_log(),
                ).contains((x, k))),
            end - start < word_size() ==> final(self).free() == old(self).free()
                && final(self).total_spec() == old(self).total_spec(),
    {
        let ghost f0 = self.free();
        let wl: usize = if usize::BITS == 32 {
            2
        } else {
            3
        };
        proof {
            assert(usize::BITS == 32 || usize::BITS == 64);
            assert(pow2i(0) == 1);
            assert(pow2i(1) == 2);
            assert(pow2i(2) == 4);
            assert(pow2i(3) == 8);
            assert(pow2i(wl as int) == word_size());
            assert(wl as int == word_log());
        }
        let added = add_region(&mut self.free_list, start, end, wl);
        self.total = self.total + added;
        proof {
            assert forall|j: int|
                0 <= j < self.live_blocks().len() implies blk_free_disjoint(
                self.free(),
                (#[trigger] self.live_blocks()[j]).0,
                self.live_blocks()[j].1 as int,
            ) by {
                let q = self.live_blocks()[j].0;
                let kq = self.live_blocks()[j].1 as int;
                assert(blk_free_disjoint(f0, q, kq));
                assert(q + pow2i(kq) <= start || end <= q);
            }
        }
    }

    /// Allocate a block of at least `size` bytes aligned to `align`. The
    /// block has 2^c bytes where c is the smallest class covering
    /// max(size, align, word); the least free block of the first
    /// large-enough class is taken and split down.
    pub fn allocate(&mut self, size: usize, align: usize) -> (r: Result<usize, AllocErr>)
        requires
            old(self).wf(),
            is_pow2(align as int),
        ensures
            final(self).wf(),
            final(self).total_spec() == old(self).total_spec(),
            buddy_free(old(self).free()) ==> buddy_free(final(self).free()),
            (r is Ok) <==> (heap_class(size as int, align as int) < 32 && exists|i: int|
                heap_class(size as int, align as int) <= i < 32 && old(self).free()[i].len() > 0),
            match r {
                Result::Err(_) => {
                    &&& final(self).free() == old(self).free()
                    &&& final(self).allocated_spec() == old(self).allocated_spec()
                    &&& final(self).user_spec() == old(self).user_spec()
                    &&& final(self).live_blocks() == old(self).live_blocks()
                    &&& final(self).live_req_sizes() == old(self).live_req_sizes()
                },
                Result::Ok(b) => {
                    &&& heap_class(size as int, align as int) < 32
                    &&& exists|i: int|
                        take_shape(
                            old(self).free(),
                            final(self).free(),
                            heap_class(size as int, align as int),
                            i,
                            b,
                        )
                    &&& b as int % pow2i(heap_class(size as int, align as int)) == 0
                    &&& b as int % align as int == 0
                    &&& b as int % word_size() == 0
                    &&& final(self).allocated_spec() == old(self).allocated_spec() + pow2i(
                        heap_class(size as int, align as int),
                    )
                    &&& final(self).user_spec() == old(self).user_spec() + size
                    &&& final(self).live_blocks() == old(self).live_blocks().push(
                        (b, heap_class(size as int, align as int) as usize),
                    )
                    &&& final(self).live_req_sizes() == old(self).live_req_sizes().push(size)
                },
            },
    {
        let ghost f0 = self.free();
        let mut m = size;
        if align > m {
            m = align;
        }
        let word: usize = (usize::BITS / 8) as usize;
        proof {
            assert(usize::BITS == 32 || usize::BITS == 64);
        }
        if word > m {
            m = word;
        }
        assert(m == effective_size(size as int, align as int));
        let c = class_for(m);
        if c == 32 {
            return Err(AllocErr);
        }
        let r = take_block(&mut self.free_list, c);
        match r {
            None => Err(AllocErr),
            Some(b) => {
                proof {
                    let i = choose|i: int| take_shape(f0, self.free(), c as int, i, b);
                    assert(f0[i].len() > 0);
                    lemma_shl_pow2(c);
                    lemma_amount_nonneg(self.free());
                    if buddy_free(f0) {
                        lemma_take_buddy_free(f0, self.free(), c as int, i, b);
                    }
                    lemma_req_class_bounds(m as int, 0);
                    // the block is aligned to the requested alignment and to
                    // the word size
                    let ak = choose|ak: int| 0 <= ak < 64 && align as int == pow2i(ak);
                    if ak > c {
                        lemma_pow2i_mono(c as int + 1, ak);
                    }
                    lemma_aligned_weaken(b as int, c as int, ak);
                    let wk: int = if usize::BITS == 32 {
                        2
                    } else {
                        3
                    };
                    assert(pow2i(0) == 1);
                    assert(pow2i(1) == 2);
                    assert(pow2i(2) == 4);
                    assert(pow2i(3) == 8);
                    assert(pow2i(wk) == word_size());
                    if wk > c {
                        lemma_pow2i_mono(c as int + 1, wk);
                    }
                    lemma_aligned_weaken(b as int, c as int, wk);
                    // user + size stays within the allocated bytes
                    lemma_sum_vals_le_sizes(self.live_sizes@, self.live@);
                }
                self.allocated = self.allocated + (1usize << c);
                self.user = self.user + size;
                proof {
                    let entry = (b, c);
                    let l0 = self.live@;
                    let ls0 = self.live_sizes@;
                    self.live@ = l0.push(entry);
                    self.live_sizes@ = ls0.push(size);
                    let nl = l0.push(entry);
                    let nls = ls0.push(size);
                    assert(nl.drop_last() =~= l0);
                    assert(nls.drop_last() =~= ls0);
                    assert(sum_sizes(nl) == sum_sizes(l0) + pow2i(c as int));
                    assert(sum_vals(nls) == sum_vals(ls0) + size);
                    assert forall|j1: int, j2: int|
                        0 <= j1 < nl.len() && 0 <= j2 < nl.len() && j1 != j2
                            implies blk_disjoint(
                        (#[trigger] nl[j1]).0,
                        nl[j1].1 as int,
                        (#[trigger] nl[j2]).0,
                        nl[j2].1 as int,
                    ) by {
                        if j1 == l0.len() {
                            assert(nl[j2] == l0[j2]);
                            assert(blk_free_disjoint(f0, l0[j2].0, l0[j2].1 as int));
                            assert(blk_disjoint(l0[j2].0, l0[j2].1 as int, b, c as int));
                        } else if j2 == l0.len() {
                            assert(nl[j1] == l0[j1]);
                            assert(blk_free_disjoint(f0, l0[j1].0, l0[j1].1 as int));
                            assert(blk_disjoint(l0[j1].0, l0[j1].1 as int, b, c as int));
                        } else {
                            assert(nl[j1] == l0[j1]);
                            assert(nl[j2] == l0[j2]);
                            assert(blk_disjoint(
                                l0[j1].0,
                                l0[j1].1 as int,
                                l0[j2].0,
                                l0[j2].1 as int,
                            ));
                        }
                    }
                    assert forall|j: int|
                        0 <= j < nl.len() implies blk_free_disjoint(
                        self.free(),
                        (#[trigger] nl[j]).0,
                        nl[j].1 as int,
                    ) by {
                        if j < l0.len() {
                            assert(nl[j] == l0[j]);
                            assert(blk_free_disjoint(f0, l0[j].0, l0[j].1 as int));
                        } else {
                            assert(nl[j] == entry);
                        }
                    }
                    assert forall|j: int|
                        0 <= j < nl.len() implies (#[trigger] nl[j]).1 < 32 && blk_aligned(
                        nl[j].0,
                        nl[j].1 as int,
                    ) && blk_fits(nl[j].0, nl[j].1 as int) by {
                        if j < l0.len() {
                            assert(nl[j] == l0[j]);
                        } else {
                            assert(nl[j] == entry);
                        }
                    }
                    assert forall|j: int|
                        0 <= j < nl.len() implies (#[trigger] nls[j]) <= pow2i(
                        nl[j].1 as int,
                    ) by {
                        if j < l0.len() {
                            assert(nl[j] == l0[j]);
                            assert(nls[j] == ls0[j]);
                        } else {
                            assert(nl[j] == entry);
                            assert(nls[j] == size);
                        }
                    }
                }
                Ok(b)
            },
        }
    }

    /// Free the block at `ptr` that was returned by an `allocate` call with
    /// exactly the same `size` and `align`. The block is merged with free
    /// buddies as far as possible.
    pub fn dealloc(&mut self, ptr: usize, size: usize, align: usize)
        requires
            old(self).wf(),
            heap_class(size as int, align as int) < 32,
            exists|idx: int|
                0 <= idx < old(self).live_blocks().len() && old(self).live_blocks()[idx] == (
                ptr,
                heap_class(size as int, align as int) as usize,
                ) && old(self).live_req_sizes()[idx] == size,
        ensures
            final(self).wf(),
            final(self).total_spec() == old(self).total_spec(),
            final(self).allocated_spec() == old(self).allocated_spec() - pow2i(
                heap_class(size as int, align as int),
            ),
            final(self).user_spec() == old(self).user_spec() - size,
            final(self).free() == coalesce(
                old(self).free(),
                ptr,
                heap_class(size as int, align as int),
            ),
            buddy_free(old(self).free()) ==> buddy_free(final(self).free()),
            exists|idx: int|
                0 <= idx < old(self).live_blocks().len() && old(self).live_blocks()[idx] == (
                ptr,
                heap_class(size as int, align as int) as usize,
                ) && final(self).live_blocks() == old(self).live_blocks().remove(idx)
                    && final(self).live_req_sizes() == old(self).live_req_sizes().remove(idx),
    {
        let ghost f0 = self.free();
        let ghost l0 = self.live@;
        let ghost ls0 = self.live_sizes@;
        let mut m = size;
        if align > m {
            m = align;
        }
        let word: usize = (usize::BITS / 8) as usize;
        proof {
            assert(usize::BITS == 32 || usize::BITS == 64);
        }
        if word > m {
            m = word;
        }
        assert(m == effective_size(size as int, align as int));
        let c = class_for(m);
        assert(c < 32);
        let ghost idx = choose|idx: int|
            0 <= idx < l0.len() && l0[idx] == (ptr, c) && ls0[idx] == size;
        proof {
            assert(blk_free_disjoint(f0, ptr, c as int));
            assert(blk_aligned(ptr, c as int) && blk_fits(ptr, c as int));
            lemma_sum_sizes_remove(l0, idx);
            lemma_sum_sizes_nonneg(l0.remove(idx));
            lemma_sum_vals_remove(ls0, idx);
            lemma_sum_vals_nonneg(ls0.remove(idx));
            lemma_shl_pow2(c);
        }
        proof {
            if buddy_free(f0) {
                lemma_coalesce_buddy_free(f0, ptr, c as int);
            }
        }
        coalesce_up(&mut self.free_list, ptr, c);
        self.allocated = self.allocated - (1usize << c);
        self.user = self.user - size;
        proof {
            self.live@ = l0.remove(idx);
            self.live_sizes@ = ls0.remove(idx);
            assert forall|j1: int, j2: int|
                0 <= j1 < self.live@.len() && 0 <= j2 < self.live@.len() && j1 != j2
                    implies blk_disjoint(
                (#[trigger] self.live@[j1]).0,
                self.live@[j1].1 as int,
                (#[trigger] self.live@[j2]).0,
                self.live@[j2].1 as int,
            ) by {
                let o1 = if j1 < idx { j1 } else { j1 + 1 };
                let o2 = if j2 < idx { j2 } else { j2 + 1 };
                assert(self.live@[j1] == l0[o1]);
                assert(self.live@[j2] == l0[o2]);
            }
            assert forall|j: int|
                0 <= j < self.live@.len() implies blk_free_disjoint(
                self.free(),
                (#[trigger] self.live@[j]).0,
                self.live@[j].1 as int,
            ) by {
                let o = if j < idx { j } else { j + 1 };
                assert(self.live@[j] == l0[o]);
                assert(blk_free_disjoint(f0, l0[o].0, l0[o].1 as int));
                assert(blk_disjoint(l0[o].0, l0[o].1 as int, l0[idx].0, l0[idx].1 as int));
            }
            assert forall|j: int|
                0 <= j < self.live@.len() implies (#[trigger] self.live@[j]).1 < 32
                    && blk_aligned(self.live@[j].0, self.live@[j].1 as int) && blk_fits(
                self.live@[j].0,
                self.live@[j].1 as int,
            ) by {
                let o = if j < idx { j } else { j + 1 };
                assert(self.live@[j] == l0[o]);
            }
            assert forall|j: int|
                0 <= j < self.live@.len() implies (#[trigger] self.live_sizes@[j]) <= pow2i(
                self.live@[j].1 as int,
            ) by {
                let o = if j < idx { j } else { j + 1 };
                assert(self.live@[j] == l0[o]);
                assert(self.live_sizes@[j] == ls0[o]);
            }
        }
    }

    /// Bytes currently requested by callers (un-rounded sizes).
    pub fn stats_alloc_user(&self) -> (r: usize)
        ensures
            r == self.user_spec(),
    {
        self.user
    }

    /// Bytes currently handed out (each block counted at its rounded size).
    pub fn stats_alloc_actual(&self) -> (r: usize)
        ensures
            r == self.allocated_spec(),
    {
        self.allocated
    }

    /// Total bytes ever added to the heap.
    pub fn stats_total_bytes(&self) -> (r: usize)
        ensures
            r == self.total_spec(),
    {
        self.total
    }
}

/// In every well-formed heap state the requested bytes never exceed the
/// handed-out bytes, which never exceed the bytes ever added.
pub proof fn lemma_stats_ordered(h: Heap)
    requires
        h.wf(),
    ensures
        h.user_spec() <= h.allocated_spec(),
        h.allocated_spec() <= h.total_spec(),
{
    lemma_sum_vals_le_sizes(h.live_req_sizes(), h.live_blocks());
    lemma_amount_nonneg(h.free());
}

/// Once every allocation has been returned, no bytes are counted as
/// requested or handed out and the whole total is free again, whatever
/// the order of the returns was.
pub proof fn lemma_all_returned(h: Heap)
    requires
        h.wf(),
        h.live_blocks().len() == 0,
    ensures
        h.user_spec() == 0,
        h.allocated_spec() == 0,
        free_amount(h.free()) == h.total_spec(),
{
}

} // verus!
