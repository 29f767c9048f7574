use vstd::prelude::*;

use crate::engine::{add_region, class_for, coalesce_up, new_lists, take_block};
use crate::model::{
    all_sorted, blk_aligned, blk_disjoint, blk_fits, blk_free_disjoint, buddy_free, coalesce,
    decomposition,
    free_amount, free_disjoint, lemma_amount_nonneg, lemma_coalesce_buddy_free, lemma_shl_pow2,
    lemma_take_buddy_free,
    lemma_sum_sizes_nonneg, lemma_sum_sizes_remove, lists_wf, live_free_disjoint, live_wf, pow2i,
    region_free_disjoint, req_class, sum_sizes, take_shape, views,
};

verus! {

/// A frame allocator over abstract frame numbers, using the buddy system
/// with 32 size classes. Free runs of each class are kept as an ordered set
/// of starting frame numbers.
pub struct FrameAllocator {
    free_list: Vec<Vec<usize>>,
    allocated: usize,
    total: usize,
    live: Ghost<Seq<(usize, usize)>>,
}

impl FrameAllocator {
    /// The free runs: for each class k, the sorted starting frames of the
    /// free runs of 2^k frames.
    pub closed spec fn free(self) -> Seq<Seq<usize>> {
        views(self.free_list@)
    }

    /// The outstanding allocations, as (frame, class) pairs.
    pub closed spec fn live_blocks(self) -> Seq<(usize, usize)> {
        self.live@
    }

    pub closed spec fn allocated_spec(self) -> usize {
        self.allocated
    }

    pub closed spec fn total_spec(self) -> usize {
        self.total
    }

    pub open spec fn wf(self) -> bool {
        &&& lists_wf(self.free())
        &&& all_sorted(self.free())
        &&& free_disjoint(self.free())
        &&& live_wf(self.live_blocks())
        &&& live_free_disjoint(self.free(), self.live_blocks())
        &&& self.allocated_spec() == sum_sizes(self.live_blocks())
        &&& self.total_spec() == self.allocated_spec() + free_amount(self.free())
    }

    /// Create an empty frame allocator.
    pub fn new() -> (r: FrameAllocator)
        ensures
            r.wf(),
            r.total_spec() == 0,
            r.allocated_spec() == 0,
            forall|k: int| 0 <= k < 32 ==> r.free()[k].len() == 0,
            r.live_blocks() == Seq::<(usize, usize)>::empty(),
    {
        let fl = new_lists();
        FrameAllocator { free_list: fl, allocated: 0, total: 0, live: Ghost(Seq::empty()) }
    }

    /// Add the range of frame numbers [start, end) to the allocator.
    pub fn add_frame(&mut self, start: usize, end: usize)
        requires
            old(self).wf(),
            start <= end,
            end - start < pow2i(32),
            old(self).total_spec() + (end - start) <= usize::MAX,
            region_free_disjoint(old(self).free(), start as int, end as int),
            forall|j: int|
                0 <= j < old(self).live_blocks().len() ==> (#[trigger] old(
                    self,
                ).live_blocks()[j]).0 + pow2i(old(self).live_blocks()[j].1 as int) <= start || end
                    <= old(self).live_blocks()[j].0,
        ensures
            final(self).wf(),
            final(self).total_spec() == old(self).total_spec() + (end - start),
            final(self).allocated_spec() == old(self).allocated_spec(),
            final(self).live_blocks() == old(self).live_blocks(),
            free_amount(final(self).free()) == free_amount(old(self).free()) + (end - start),
            forall|k: int, x: usize|
                0 <= k < 32 ==> ((#[trigger] final(self).free()[k].contains(x)) <==> old(
                    self,
                ).free()[k].contains(x) || decomposition(start as int, end as int, 0).contains(
                    (x, k),
                )),
            start == end ==> final(self).free() == old(self).free(),
    {
        let ghost f0 = self.free();
        let added = add_region(&mut self.free_list, start, end, 0);
        assert(added == end - start);
        self.total = self.total + added;
        proof {
            assert forall|j: int|
                0 <= j < self.live_blocks().len() implies blk_free_disjoint(
                self.free(),
                (#[trigger] self.live_blocks()[j]).0,
                self.live_blocks()[j].1 as int,
            ) by {
                let q = self.live_blocks()[j].0;
                let kq = self.live_blocks()[j].1 as int;
                assert(blk_free_disjoint(f0, q, kq));
                assert(q + pow2i(kq) <= start || end <= q);
            }
        }
    }

    /// Add the range of frame numbers `range` to the allocator.
    pub fn insert(&mut self, range: core::ops::Range<usize>)
        requires
            old(self).wf(),
            range.start <= range.end,
            range.end - range.start < pow2i(32),
            old(self).total_spec() + (range.end - range.start) <= usize::MAX,
            region_free_disjoint(old(self).free(), range.start as int, range.end as int),
            forall|j: int|
                0 <= j < old(self).live_blocks().len() ==> (#[trigger] old(
                    self,
                ).live_blocks()[j]).0 + pow2i(old(self).live_blocks()[j].1 as int) <= range.start
                    || range.end <= old(self).live_blocks()[j].0,
        ensures
            final(self).wf(),
            final(self).total_spec() == old(self).total_spec() + (range.end - range.start),
            final(self).allocated_spec() == old(self).allocated_spec(),
            final(self).live_blocks() == old(self).live_blocks(),
            free_amount(final(self).free()) == free_amount(old(self).free()) + (range.end
                - range.start),
            forall|k: int, x: usize|
                0 <= k < 32 ==> ((#[trigger] final(self).free()[k].contains(x)) <==> old(
                    self,
                ).free()[k].contains(x) || decomposition(
                    range.start as int,
                    range.end as int,
                    0,
                ).contains((x, k))),
            range.start == range.end ==> final(self).free() == old(self).free(),
    {
        self.add_frame(range.start, range.end);
    }

    /// Allocate a run of `count` frames, returning its first frame number.
    /// The run has next_power_of_two(count) frames; the least suitable free
    /// run of the first large-enough class is taken and split down.
    pub fn allocate(&mut self, count: usize) -> (r: Option<usize>)
        requires
            old(self).wf(),
        ensures
            final(self).wf(),
            final(self).total_spec() == old(self).total_spec(),
            buddy_free(old(self).free()) ==> buddy_free(final(self).free()),
            (r is Some) <==> (req_class(count as int, 0) < 32 && exists|i: int|
                req_class(count as int, 0) <= i < 32 && old(self).free()[i].len() > 0),
            match r {
                Option::None => {
                    &&& final(self).free() == old(self).free()
                    &&& final(self).allocated_spec() == old(self).allocated_spec()
                    &&& final(self).live_blocks() == old(self).live_blocks()
                },
                Option::Some(b) => {
                    &&& req_class(count as int, 0) < 32
                    &&& exists|i: int|
                        take_shape(
                            old(self).free(),
                            final(self).free(),
                            req_class(count as int, 0),
                            i,
                            b,
                        )
                    &&& blk_aligned(b, req_class(count as int, 0))
                    &&& b as int % pow2i(req_class(count as int, 0)) == 0
                    &&& final(self).allocated_spec() == old(self).allocated_spec() + pow2i(
                        req_class(count as int, 0),
                    )
                    &&& final(self).live_blocks() == old(self).live_blocks().push(
                        (b, req_class(count as int, 0) as usize),
                    )
                },
            },
    {
        let ghost f0 = self.free();
        let c = class_for(count);
        if c == 32 {
            return None;
        }
        let r = take_block(&mut self.free_list, c);
        match r {
            None => {
                proof {
                    assert forall|i: int| c <= i < 32 implies !(f0[i].len() > 0) by {}
                }
                None
            },
            Some(b) => {
                proof {
                    let i = choose|i: int| take_shape(f0, self.free(), c as int, i, b);
                    assert(f0[i].len() > 0);
                    lemma_shl_pow2(c);
                    lemma_amount_nonneg(self.free());
                    if buddy_free(f0) {
                        lemma_take_buddy_free(f0, self.free(), c as int, i, b);
                    }
                }
                self.allocated = self.allocated + (1usize << c);
                proof {
                    let entry = (b, c);
                    let l0 = self.live@;
                    self.live@ = l0.push(entry);
                    let nl = l0.push(entry);
                    assert(nl.drop_last() =~= l0);
                    assert(sum_sizes(nl) == sum_sizes(l0) + pow2i(c as int));
                    assert forall|j1: int, j2: int|
                        0 <= j1 < nl.len() && 0 <= j2 < nl.len() && j1 != j2
                            implies blk_disjoint(
                        (#[trigger] nl[j1]).0,
                        nl[j1].1 as int,
                        (#[trigger] nl[j2]).0,
                        nl[j2].1 as int,
                    ) by {
                        if j1 == l0.len() {
                            assert(nl[j2] == l0[j2]);
                            assert(blk_free_disjoint(f0, l0[j2].0, l0[j2].1 as int));
                            assert(blk_disjoint(l0[j2].0, l0[j2].1 as int, b, c as int));
                        } else if j2 == l0.len() {
                            assert(nl[j1] == l0[j1]);
                            assert(blk_free_disjoint(f0, l0[j1].0, l0[j1].1 as int));
                            assert(blk_disjoint(l0[j1].0, l0[j1].1 as int, b, c as int));
                        } else {
                            assert(nl[j1] == l0[j1]);
                            assert(nl[j2] == l0[j2]);
                            assert(blk_disjoint(
                                l0[j1].0,
                                l0[j1].1 as int,
                                l0[j2].0,
                                l0[j2].1 as int,
                            ));
                        }
                    }
                    assert forall|j: int|
                        0 <= j < nl.len() implies blk_free_disjoint(
                        self.free(),
                        (#[trigger] nl[j]).0,
                        nl[j].1 as int,
                    ) by {
                        if j < l0.len() {
                            assert(nl[j] == l0[j]);
                            assert(blk_free_disjoint(f0, l0[j].0, l0[j].1 as int));
                        } else {
                            assert(nl[j] == entry);
                        }
                    }
                    assert forall|j: int|
                        0 <= j < nl.len() implies (#[trigger] nl[j]).1 < 32 && blk_aligned(
                        nl[j].0,
                        nl[j].1 as int,
                    ) && blk_fits(nl[j].0, nl[j].1 as int) by {
                        if j < l0.len() {
                            assert(nl[j] == l0[j]);
                        } else {
                            assert(nl[j] == entry);
                        }
                    }
                }
                Some(b)
            },
        }
    }

    /// Free the run of `count` frames starting at `frame`. The arguments
    /// must match a prior `alloc` exactly; the run is merged with free
    /// buddies as far as possible.
    pub fn dealloc(&mut self, frame: usize, count: usize)
        requires
            old(self).wf(),
            req_class(count as int, 0) < 32,
            old(self).live_blocks().contains(
                (frame, req_class(count as int, 0) as usize),
            ),
        ensures
            final(self).wf(),
            final(self).total_spec() == old(self).total_spec(),
            final(self).allocated_spec() == old(self).allocated_spec() - pow2i(
                req_class(count as int, 0),
            ),
            final(self).free() == coalesce(old(self).free(), frame, req_class(count as int, 0)),
            buddy_free(old(self).free()) ==> buddy_free(final(self).free()),
            exists|idx: int|
                0 <= idx < old(self).live_blocks().len() && old(self).live_blocks()[idx] == (
                frame,
                req_class(count as int, 0) as usize,
                ) && final(self).live_blocks() == old(self).live_blocks().remove(idx),
    {
        let ghost f0 = self.free();
        let ghost l0 = self.live@;
        let c = class_for(count);
        assert(c < 32);
        proof {
            let entry = (frame, c);
            let idx = choose|idx: int| 0 <= idx < l0.len() && l0[idx] == entry;
            assert(blk_free_disjoint(f0, frame, c as int));
            assert(blk_aligned(frame, c as int) && blk_fits(frame, c as int));
            lemma_sum_sizes_remove(l0, idx);
            lemma_sum_sizes_nonneg(l0.remove(idx));
            lemma_shl_pow2(c);
        }
        proof {
            if buddy_free(f0) {
                lemma_coalesce_buddy_free(f0, frame, c as int);
            }
        }
        coalesce_up(&mut self.free_list, frame, c);
        self.allocated = self.allocated - (1usize << c);
        proof {
            let entry = (frame, c);
            let idx = choose|idx: int| 0 <= idx < l0.len() && l0[idx] == entry;
            self.live@ = l0.remove(idx);
            lemma_sum_sizes_remove(l0, idx);
            assert forall|j1: int, j2: int|
                0 <= j1 < self.live@.len() && 0 <= j2 < self.live@.len() && j1 != j2
                    implies blk_disjoint(
                (#[trigger] self.live@[j1]).0,
                self.live@[j1].1 as int,
                (#[trigger] self.live@[j2]).0,
                self.live@[j2].1 as int,
            ) by {
                let o1 = if j1 < idx { j1 } else { j1 + 1 };
                let o2 = if j2 < idx { j2 } else { j2 + 1 };
                assert(self.live@[j1] == l0[o1]);
                assert(self.live@[j2] == l0[o2]);
            }
            assert forall|j: int|
                0 <= j < self.live@.len() implies blk_free_disjoint(
                self.free(),
                (#[trigger] self.live@[j]).0,
                self.live@[j].1 as int,
            ) by {
                let o = if j < idx { j } else { j + 1 };
                assert(self.live@[j] == l0[o]);
                assert(blk_free_disjoint(f0, l0[o].0, l0[o].1 as int));
                assert(blk_disjoint(l0[o].0, l0[o].1 as int, l0[idx].0, l0[idx].1 as int));
            }
            assert forall|j: int|
                0 <= j < self.live@.len() implies (#[trigger] self.live@[j]).1 < 32
                    && blk_aligned(self.live@[j].0, self.live@[j].1 as int) && blk_fits(
                self.live@[j].0,
                self.live@[j].1 as int,
            ) by {
                let o = if j < idx { j } else { j + 1 };
                assert(self.live@[j] == l0[o]);
            }
        }
    }

    /// Frames currently handed out (each run counted at its rounded size).
    pub fn stats_allocated(&self) -> (r: usize)
        ensures
            r == self.allocated_spec(),
    {
        self.allocated
    }

    /// Total frames ever added to the allocator.
    pub fn stats_total(&self) -> (r: usize)
        ensures
            r == self.total_spec(),
    {
        self.total
    }

}

/// In every well-formed allocator state, the frames counted as handed out
/// never exceed the frames ever added.
pub proof fn lemma_allocated_within_total(a: FrameAllocator)
    requires
        a.wf(),
    ensures
        a.allocated_spec() <= a.total_spec(),
{
    lemma_amount_nonneg(a.free());
}

/// Once every allocation has been returned, nothing is counted as handed
/// out and the whole total is free again, whatever the order of the
/// returns was.
pub proof fn lemma_all_returned(a: FrameAllocator)
    requires
        a.wf(),
        a.live_blocks().len() == 0,
    ensures
        a.allocated_spec() == 0,
        free_amount(a.free()) == a.total_spec(),
{
}

} // verus!
