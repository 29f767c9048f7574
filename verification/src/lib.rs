//! A buddy-system memory manager with 32 size classes, in two flavours:
//! a byte-granularity [`Heap`] over a caller-supplied address range, and a
//! [`FrameAllocator`] over abstract integer frame numbers.
//!
//! Every operation carries a contract over a mathematical model of the
//! free lists ([`model`]): blocks stay aligned and mutually disjoint, the
//! statistics counters track the outstanding allocations exactly, frees
//! merge buddies as far as possible, and an allocation followed by its
//! matching free restores the free lists.

use vstd::prelude::*;

pub mod model;
mod engine;
pub mod frame;
pub mod heap;

pub use frame::FrameAllocator;
pub use heap::{AllocErr, Heap};

verus! {

/// Greatest power of two that is at most `num`.
pub fn prev_power_of_two(num: usize) -> (r: usize)
    requires
        num >= 1,
    ensures
        r <= num,
        num < 2 * r,
        exists|k: int| 0 <= k < 64 && r == crate::model::pow2i(k),
{
    let mut p: usize = 1;
    let ghost mut e: int = 0;
    proof {
        assert(crate::model::pow2i(0) == 1);
    }
    while num / 2 >= p
        invariant
            1 <= p <= num,
            0 <= e < 64,
            p == crate::model::pow2i(e),
        decreases num - p,
    {
        p = p * 2;
        proof {
            e = e + 1;
            if e >= 64 {
                crate::model::lemma_addr_cap();
                crate::model::lemma_pow2i_mono(usize::BITS as int, e);
            }
        }
    }
    p
}

} // verus!

