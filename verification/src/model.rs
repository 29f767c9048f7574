use vstd::prelude::*;
use vstd::arithmetic::power2::pow2;
use vstd::arithmetic::div_mod::{
    lemma_fundamental_div_mod, lemma_mod_multiples_basic, lemma_mod_multiples_vanish,
    lemma_small_mod,
};

verus! {

// ---------------------------------------------------------------------------
// Powers of two
// ---------------------------------------------------------------------------

/// 2^k as a mathematical integer (1 for k <= 0, so the function is total).
pub open spec fn pow2i(k: int) -> int
    decreases k,
{
    if k <= 0 {
        1
    } else {
        2 * pow2i(k - 1)
    }
}

pub proof fn lemma_pow2i_pos(k: int)
    ensures
        pow2i(k) >= 1,
    decreases k,
{
    if k > 0 {
        lemma_pow2i_pos(k - 1);
    }
}

pub proof fn lemma_pow2i_mono(a: int, b: int)
    requires
        a <= b,
    ensures
        pow2i(a) <= pow2i(b),
    decreases b - a,
{
    if a < b {
        lemma_pow2i_mono(a, b - 1);
        lemma_pow2i_pos(b - 1);
    }
}

pub proof fn lemma_pow2i_adds(a: int, b: int)
    requires
        a >= 0,
        b >= 0,
    ensures
        pow2i(a + b) == pow2i(a) * pow2i(b),
    decreases a,
{
    if a > 0 {
        lemma_pow2i_adds(a - 1, b);
        assert(2 * (pow2i(a - 1) * pow2i(b)) == (2 * pow2i(a - 1)) * pow2i(b))
            by (nonlinear_arith);
    }
}

pub proof fn lemma_pow2i_eq_pow2(k: int)
    requires
        k >= 0,
    ensures
        pow2i(k) == pow2(k as nat),
    decreases k,
{
    if k == 0 {
        vstd::arithmetic::power2::lemma2_to64();
    } else {
        lemma_pow2i_eq_pow2(k - 1);
        vstd::arithmetic::power2::lemma_pow2_adds((k - 1) as nat, 1);
        vstd::arithmetic::power2::lemma2_to64();
    }
}

/// Bridge between the executable shift and the mathematical power.
pub proof fn lemma_shl_pow2(c: usize)
    requires
        c < 32,
    ensures
        1usize << c == pow2i(c as int),
        1 <= pow2i(c as int) <= usize::MAX,
{
    assert(usize::BITS == 32 || usize::BITS == 64);
    vstd::bits::lemma_usize_pow2_no_overflow(c as nat);
    vstd::bits::lemma_usize_shl_is_mul(1, c);
    lemma_pow2i_eq_pow2(c as int);
}

/// The address space is exactly 2^(word width), and the word width is at
/// least 32 bits.
pub proof fn lemma_addr_cap()
    ensures
        usize::MAX + 1 == pow2i(usize::BITS as int),
        32 <= usize::BITS <= 64,
{
    assert(usize::BITS == 32 || usize::BITS == 64);
    vstd::layout::unsigned_int_max_values();
    lemma_pow2i_eq_pow2(usize::BITS as int);
}

// ---------------------------------------------------------------------------
// Blocks: a block of class k at position p covers [p, p + 2^k)
// ---------------------------------------------------------------------------

/// The block lies inside the address space.
pub open spec fn blk_fits(p: usize, k: int) -> bool {
    p + pow2i(k) <= usize::MAX + 1
}

/// The block position is naturally aligned to its size.
pub open spec fn blk_aligned(p: usize, k: int) -> bool {
    p as int % pow2i(k) == 0
}

/// The two blocks cover disjoint ranges.
pub open spec fn blk_disjoint(p1: usize, k1: int, p2: usize, k2: int) -> bool {
    p1 + pow2i(k1) <= p2 || p2 + pow2i(k2) <= p1
}

/// The buddy of a class-k block at p: the other half of the aligned
/// class-(k+1) range containing the block.
pub open spec fn buddy_of(p: usize, k: int) -> int {
    if p as int % pow2i(k + 1) == 0 {
        p + pow2i(k)
    } else {
        p - pow2i(k)
    }
}

/// Position of the merged block: the lower of a block and its buddy.
pub open spec fn merged_of(p: usize, k: int) -> int {
    if buddy_of(p, k) < p {
        buddy_of(p, k)
    } else {
        p as int
    }
}

/// An aligned block that fits has p + 2^(k+1) <= 2^64 when it is aligned to
/// 2^(k+1); more generally a multiple of s below a multiple of s leaves room
/// for a whole s.
proof fn lemma_multiple_bound(p: int, s: int, m: int)
    requires
        s >= 1,
        p % s == 0,
        m % s == 0,
        0 <= p < m,
    ensures
        p + s <= m,
{
    lemma_fundamental_div_mod(p, s);
    lemma_fundamental_div_mod(m, s);
    let a = p / s;
    let c = m / s;
    assert(p + s <= m) by (nonlinear_arith)
        requires
            s >= 1,
            p == s * a,
            m == s * c,
            0 <= p < m,
    ;
}

/// Core properties of the buddy relation.
pub proof fn lemma_buddy(p: usize, k: int)
    requires
        0 <= k,
        k + 1 <= usize::BITS,
        blk_aligned(p, k),
        blk_fits(p, k),
    ensures
        ({
            let b = buddy_of(p, k);
            let lo = merged_of(p, k);
            let hi = if b < p { p as int } else { b };
            &&& 0 <= b
            &&& b != p
            &&& b % pow2i(k) == 0
            &&& b + pow2i(k) <= usize::MAX + 1
            &&& lo % pow2i(k + 1) == 0
            &&& lo + pow2i(k) == hi
            &&& lo + pow2i(k + 1) == hi + pow2i(k)
            &&& lo <= p as int
            &&& p + pow2i(k) <= lo + pow2i(k + 1)
            &&& buddy_of(b as usize, k) == p as int
        }),
{
    let s = pow2i(k);
    let s2 = pow2i(k + 1);
    assert(s2 == 2 * s);
    lemma_pow2i_pos(k);
    lemma_addr_cap();
    let bits = usize::BITS as int;
    let cap = usize::MAX + 1;
    // cap is a multiple of s2
    lemma_pow2i_adds(k + 1, bits - k - 1);
    assert(cap == s2 * pow2i(bits - k - 1));
    lemma_mod_multiples_basic(pow2i(bits - k - 1), s2);
    assert(pow2i(bits - k - 1) * s2 == s2 * pow2i(bits - k - 1)) by (nonlinear_arith);
    assert(cap % s2 == 0);

    lemma_fundamental_div_mod(p as int, s);
    let q = p as int / s;
    assert(p as int == q * s);
    assert(q >= 0) by (nonlinear_arith)
        requires
            s >= 1,
            q * s >= 0,
    ;
    // p % s2 is either 0 or s
    let t = q / 2;
    let r = q % 2;
    vstd::arithmetic::div_mod::lemma_fundamental_div_mod(q, 2);
    assert(q == 2 * t + r);
    assert(p as int == (2 * t + r) * s == t * s2 + r * s) by (nonlinear_arith)
        requires
            p as int == q * s,
            q == 2 * t + r,
            s2 == 2 * s,
    ;
    lemma_mod_multiples_vanish(t, r * s, s2);
    assert((s2 * t + r * s) % s2 == (r * s) % s2);
    assert(t * s2 == s2 * t) by (nonlinear_arith);
    if r == 0 {
        lemma_small_mod(0nat, s2 as nat);
        assert(p as int % s2 == 0);
        let b = buddy_of(p, k);
        assert(b == p + s);
        // p + s2 <= cap: p is a multiple of s2 strictly below cap
        assert(p < cap);
        lemma_multiple_bound(p as int, s2, cap);
        lemma_mod_multiples_vanish(1, p as int, s);
        assert((s * 1 + p) % s == p as int % s);
        // the buddy points back: b is a multiple of s but not of s2
        assert(b == s2 * t + s);
        lemma_mod_multiples_vanish(t, s, s2);
        lemma_small_mod(s as nat, s2 as nat);
        assert(b % s2 == s);
        assert(buddy_of(b as usize, k) == b - s == p as int);
    } else {
        assert(r == 1);
        lemma_small_mod(s as nat, s2 as nat);
        assert(p as int % s2 == s);
        assert(p as int >= s) by (nonlinear_arith)
            requires
                t >= 0,
                s >= 1,
                p as int == t * s2 + s,
                s2 == 2 * s,
        ;
        let b = buddy_of(p, k);
        assert(b == p - s);
        assert(b == t * s2);
        lemma_mod_multiples_basic(t, s2);
        assert((t * s2) % s2 == 0);
        // b % s == 0
        assert(b == (2 * t) * s) by (nonlinear_arith)
            requires
                b == t * s2,
                s2 == 2 * s,
        ;
        lemma_mod_multiples_basic(2 * t, s);
        assert(((2 * t) * s) % s == 0);
        // the buddy points back: b is a multiple of s2
        assert(buddy_of(b as usize, k) == b + s == p as int);
    }
}

/// Alignment to a larger power of two implies alignment to a smaller one.
pub proof fn lemma_aligned_weaken(p: int, k1: int, k2: int)
    requires
        0 <= k2 <= k1,
        p % pow2i(k1) == 0,
    ensures
        p % pow2i(k2) == 0,
{
    lemma_pow2i_pos(k1);
    lemma_pow2i_pos(k2);
    lemma_fundamental_div_mod(p, pow2i(k1));
    let q = p / pow2i(k1);
    lemma_pow2i_adds(k1 - k2, k2);
    assert(p == (q * pow2i(k1 - k2)) * pow2i(k2)) by (nonlinear_arith)
        requires
            p == pow2i(k1) * q,
            pow2i(k1) == pow2i(k1 - k2) * pow2i(k2),
    ;
    lemma_mod_multiples_basic(q * pow2i(k1 - k2), pow2i(k2));
}

/// Adding the block size keeps the position aligned to that size.
pub proof fn lemma_aligned_add_pow2(p: int, k: int)
    requires
        k >= 0,
        p % pow2i(k) == 0,
    ensures
        (p + pow2i(k)) % pow2i(k) == 0,
{
    lemma_pow2i_pos(k);
    lemma_mod_multiples_vanish(1, p, pow2i(k));
    assert(pow2i(k) * 1 + p == p + pow2i(k));
}

// ---------------------------------------------------------------------------
// The 32 free lists, as a sequence of sorted sequences of positions
// ---------------------------------------------------------------------------

pub open spec fn views(lists: Seq<Vec<usize>>) -> Seq<Seq<usize>> {
    lists.map_values(|l: Vec<usize>| l@)
}

pub proof fn lemma_views_update(a: Seq<Vec<usize>>, k: int, l: Vec<usize>)
    requires
        0 <= k < a.len(),
    ensures
        views(a.update(k, l)) == views(a).update(k, l@),
{
    assert(views(a.update(k, l)) =~= views(a).update(k, l@));
}

pub open spec fn sorted(s: Seq<usize>) -> bool {
    forall|i: int, j: int| 0 <= i < j < s.len() ==> s[i] < s[j]
}

pub open spec fn lists_wf(free: Seq<Seq<usize>>) -> bool {
    &&& free.len() == 32
    &&& forall|k: int, i: int|
        0 <= k < 32 && 0 <= i < free[k].len() ==> blk_aligned(#[trigger] free[k][i], k)
            && blk_fits(free[k][i], k)
}

pub open spec fn all_sorted(free: Seq<Seq<usize>>) -> bool {
    forall|k: int| 0 <= k < free.len() ==> sorted(#[trigger] free[k])
}

/// No two distinct free blocks overlap.
pub open spec fn free_disjoint(free: Seq<Seq<usize>>) -> bool {
    forall|k1: int, i1: int, k2: int, i2: int|
        0 <= k1 < 32 && 0 <= i1 < free[k1].len() && 0 <= k2 < 32 && 0 <= i2 < free[k2].len()
            && (k1 != k2 || i1 != i2) ==> blk_disjoint(
            #[trigger] free[k1][i1],
            k1,
            #[trigger] free[k2][i2],
            k2,
        )
}

/// The block (q, kq) is disjoint from every free block.
pub open spec fn blk_free_disjoint(free: Seq<Seq<usize>>, q: usize, kq: int) -> bool {
    forall|k: int, i: int|
        0 <= k < 32 && 0 <= i < free[k].len() ==> blk_disjoint(
            q,
            kq,
            #[trigger] free[k][i],
            k,
        )
}

/// The half-open range [s, e) is disjoint from every free block.
pub open spec fn region_free_disjoint(free: Seq<Seq<usize>>, s: int, e: int) -> bool {
    forall|k: int, i: int|
        0 <= k < 32 && 0 <= i < free[k].len() ==> (#[trigger] free[k][i]) + pow2i(k) <= s || e
            <= free[k][i]
}

// ---------------------------------------------------------------------------
// Accounting: total size held in the free lists
// ---------------------------------------------------------------------------

pub open spec fn free_amount_upto(free: Seq<Seq<usize>>, k: int) -> int
    decreases k,
{
    if k <= 0 {
        0
    } else {
        free_amount_upto(free, k - 1) + free[k - 1].len() * pow2i(k - 1)
    }
}

pub open spec fn free_amount(free: Seq<Seq<usize>>) -> int {
    free_amount_upto(free, 32)
}

pub proof fn lemma_amount_nonneg_upto(free: Seq<Seq<usize>>, k: int)
    ensures
        free_amount_upto(free, k) >= 0,
    decreases k,
{
    if k > 0 {
        lemma_amount_nonneg_upto(free, k - 1);
        lemma_pow2i_pos(k - 1);
        let ln = free[k - 1].len() as int;
        assert(ln * pow2i(k - 1) >= 0) by (nonlinear_arith)
            requires
                ln >= 0,
                pow2i(k - 1) >= 1,
        ;
    }
}

pub proof fn lemma_amount_nonneg(free: Seq<Seq<usize>>)
    ensures
        free_amount(free) >= 0,
{
    lemma_amount_nonneg_upto(free, 32);
}

proof fn lemma_amount_update_upto(f1: Seq<Seq<usize>>, f2: Seq<Seq<usize>>, k: int, upto: int)
    requires
        0 <= k,
        forall|j: int| 0 <= j < upto && j != k ==> f2[j] == f1[j],
    ensures
        free_amount_upto(f2, upto) == free_amount_upto(f1, upto) + if k < upto {
            (f2[k].len() - f1[k].len()) * pow2i(k)
        } else {
            0
        },
    decreases upto,
{
    if upto > 0 {
        lemma_amount_update_upto(f1, f2, k, upto - 1);
        if k == upto - 1 {
            assert(f2[k].len() * pow2i(k) - f1[k].len() * pow2i(k) == (f2[k].len()
                - f1[k].len()) * pow2i(k)) by (nonlinear_arith);
        }
    }
}

pub proof fn lemma_amount_zero(free: Seq<Seq<usize>>, upto: int)
    requires
        forall|k: int| 0 <= k < upto ==> free[k].len() == 0,
    ensures
        free_amount_upto(free, upto) == 0,
    decreases upto,
{
    if upto > 0 {
        lemma_amount_zero(free, upto - 1);
    }
}

/// Changing a single class changes the amount by the length delta times 2^k.
pub proof fn lemma_amount_update(f1: Seq<Seq<usize>>, f2: Seq<Seq<usize>>, k: int)
    requires
        0 <= k < 32,
        forall|j: int| 0 <= j < 32 && j != k ==> f2[j] == f1[j],
    ensures
        free_amount(f2) == free_amount(f1) + (f2[k].len() - f1[k].len()) * pow2i(k),
{
    lemma_amount_update_upto(f1, f2, k, 32);
}

// ---------------------------------------------------------------------------
// Sorted insertion and removal by value
// ---------------------------------------------------------------------------

pub open spec fn sorted_insert(s: Seq<usize>, v: usize) -> Seq<usize>
    decreases s.len(),
{
    if s.len() == 0 {
        seq![v]
    } else if v < s[0] {
        seq![v] + s
    } else {
        seq![s[0]] + sorted_insert(s.drop_first(), v)
    }
}

pub open spec fn remove_value(s: Seq<usize>, v: usize) -> Seq<usize>
    decreases s.len(),
{
    if s.len() == 0 {
        s
    } else if s[0] == v {
        s.drop_first()
    } else {
        seq![s[0]] + remove_value(s.drop_first(), v)
    }
}

#[verifier::rlimit(50)]
pub proof fn lemma_sorted_insert_facts(s: Seq<usize>, v: usize)
    requires
        sorted(s),
        !s.contains(v),
    ensures
        ({
            let r = sorted_insert(s, v);
            &&& r.len() == s.len() + 1
            &&& sorted(r)
            &&& forall|i: int| 0 <= i < r.len() ==> s.contains(#[trigger] r[i]) || r[i] == v
            &&& r.contains(v)
            &&& forall|x: usize| s.contains(x) ==> r.contains(x)
        }),
    decreases s.len(),
{
    let r = sorted_insert(s, v);
    if s.len() == 0 {
        assert(r == seq![v]);
        assert(r[0] == v);
    } else if v < s[0] {
        assert(r == seq![v] + s);
        assert(r[0] == v);
        assert(forall|i: int| 1 <= i < r.len() ==> r[i] == s[i - 1]);
        assert(forall|x: usize| s.contains(x) ==> r.contains(x)) by {
            assert forall|x: usize| s.contains(x) implies r.contains(x) by {
                let i = choose|i: int| 0 <= i < s.len() && s[i] == x;
                assert(r[i + 1] == x);
            }
        }
    } else {
        let s1 = s.drop_first();
        assert(s[0] != v);
        assert(v > s[0]);
        assert(sorted(s1));
        assert(!s1.contains(v)) by {
            if s1.contains(v) {
                let i = choose|i: int| 0 <= i < s1.len() && s1[i] == v;
                assert(s[i + 1] == v);
            }
        }
        lemma_sorted_insert_facts(s1, v);
        let r1 = sorted_insert(s1, v);
        assert(r == seq![s[0]] + r1);
        assert(r[0] == s[0]);
        assert(forall|i: int| 1 <= i < r.len() ==> r[i] == r1[i - 1]);
        // sorted: s[0] below everything in r1
        assert forall|i: int, j: int| 0 <= i < j < r.len() implies r[i] < r[j] by {
            if i == 0 {
                assert(r[j] == r1[j - 1]);
                if s1.contains(r1[j - 1]) {
                    let m = choose|m: int| 0 <= m < s1.len() && s1[m] == r1[j - 1];
                    assert(s[m + 1] == r1[j - 1]);
                    assert(s[0] < s[m + 1]);
                } else {
                    assert(r1[j - 1] == v);
                }
            }
        }
        assert forall|i: int| 0 <= i < r.len() implies s.contains(r[i]) || r[i] == v by {
            if i >= 1 {
                if s1.contains(r1[i - 1]) {
                    let m = choose|m: int| 0 <= m < s1.len() && s1[m] == r1[i - 1];
                    assert(s[m + 1] == r1[i - 1]);
                }
            } else {
                assert(s[0] == r[i]);
            }
        }
        assert(r1.contains(v));
        let m = choose|m: int| 0 <= m < r1.len() && r1[m] == v;
        assert(r[m + 1] == v);
        assert forall|x: usize| s.contains(x) implies r.contains(x) by {
            let i = choose|i: int| 0 <= i < s.len() && s[i] == x;
            if i == 0 {
                assert(r[0] == x);
            } else {
                assert(s1[i - 1] == x);
                assert(r1.contains(x));
                let m2 = choose|m2: int| 0 <= m2 < r1.len() && r1[m2] == x;
                assert(r[m2 + 1] == x);
            }
        }
    }
}

/// If the first index with value >= v is idx, sorted insertion is insertion at idx.
pub proof fn lemma_sorted_insert_at(s: Seq<usize>, v: usize, idx: int)
    requires
        sorted(s),
        !s.contains(v),
        0 <= idx <= s.len(),
        forall|j: int| 0 <= j < idx ==> s[j] < v,
        idx < s.len() ==> v < s[idx],
    ensures
        sorted_insert(s, v) == s.insert(idx, v),
    decreases s.len(),
{
    if s.len() == 0 {
        assert(sorted_insert(s, v) =~= s.insert(0, v));
    } else if v < s[0] {
        assert(idx == 0) by {
            if idx > 0 {
                assert(s[0] < v);
            }
        }
        assert(sorted_insert(s, v) =~= s.insert(0, v));
    } else {
        assert(s[0] != v);
        assert(idx >= 1);
        let s1 = s.drop_first();
        assert(!s1.contains(v)) by {
            if s1.contains(v) {
                let i = choose|i: int| 0 <= i < s1.len() && s1[i] == v;
                assert(s[i + 1] == v);
            }
        }
        assert(forall|j: int| 0 <= j < idx - 1 ==> s1[j] == s[j + 1] && s[j + 1] < v);
        lemma_sorted_insert_at(s1, v, idx - 1);
        assert(sorted_insert(s, v) == seq![s[0]] + s1.insert(idx - 1, v));
        assert(seq![s[0]] + s1.insert(idx - 1, v) =~= s.insert(idx, v));
    }
}

pub proof fn lemma_remove_value_facts(s: Seq<usize>, v: usize)
    requires
        sorted(s),
        s.contains(v),
    ensures
        ({
            let r = remove_value(s, v);
            &&& r.len() == s.len() - 1
            &&& sorted(r)
            &&& forall|i: int| 0 <= i < r.len() ==> s.contains(#[trigger] r[i]) && r[i] != v
            &&& forall|x: usize| s.contains(x) && x != v ==> r.contains(x)
        }),
    decreases s.len(),
{
    let r = remove_value(s, v);
    if s[0] == v {
        assert(r == s.drop_first());
        assert(forall|i: int| 0 <= i < r.len() ==> r[i] == s[i + 1]);
        assert forall|i: int| 0 <= i < r.len() implies s.contains(r[i]) && r[i] != v by {
            assert(s[i + 1] == r[i]);
            assert(s[0] < s[i + 1]);
        }
        assert forall|x: usize| s.contains(x) && x != v implies r.contains(x) by {
            let i = choose|i: int| 0 <= i < s.len() && s[i] == x;
            assert(i >= 1);
            assert(r[i - 1] == x);
        }
    } else {
        let s1 = s.drop_first();
        assert(s1.contains(v)) by {
            let i = choose|i: int| 0 <= i < s.len() && s[i] == v;
            assert(i >= 1);
            assert(s1[i - 1] == v);
        }
        assert(sorted(s1));
        lemma_remove_value_facts(s1, v);
        let r1 = remove_value(s1, v);
        assert(r == seq![s[0]] + r1);
        assert(r[0] == s[0]);
        assert(forall|i: int| 1 <= i < r.len() ==> r[i] == r1[i - 1]);
        assert forall|i: int, j: int| 0 <= i < j < r.len() implies r[i] < r[j] by {
            if i == 0 {
                assert(s1.contains(r1[j - 1]));
                let m = choose|m: int| 0 <= m < s1.len() && s1[m] == r1[j - 1];
                assert(s[m + 1] == r1[j - 1]);
                assert(s[0] < s[m + 1]);
            }
        }
        assert forall|i: int| 0 <= i < r.len() implies s.contains(r[i]) && r[i] != v by {
            if i >= 1 {
                assert(s1.contains(r1[i - 1]));
                let m = choose|m: int| 0 <= m < s1.len() && s1[m] == r1[i - 1];
                assert(s[m + 1] == r1[i - 1]);
            } else {
                assert(s[0] == r[0]);
            }
        }
        assert forall|x: usize| s.contains(x) && x != v implies r.contains(x) by {
            let i = choose|i: int| 0 <= i < s.len() && s[i] == x;
            if i == 0 {
                assert(r[0] == x);
            } else {
                assert(s1[i - 1] == x);
                assert(r1.contains(x));
                let m2 = choose|m2: int| 0 <= m2 < r1.len() && r1[m2] == x;
                assert(r[m2 + 1] == x);
            }
        }
    }
}

/// If v first occurs at idx, removal by value is removal at idx.
pub proof fn lemma_remove_value_at(s: Seq<usize>, v: usize, idx: int)
    requires
        0 <= idx < s.len(),
        s[idx] == v,
        forall|j: int| 0 <= j < idx ==> s[j] != v,
    ensures
        remove_value(s, v) == s.remove(idx),
    decreases s.len(),
{
    if idx == 0 {
        assert(remove_value(s, v) =~= s.remove(0));
    } else {
        let s1 = s.drop_first();
        assert(s1[idx - 1] == v);
        assert(forall|j: int| 0 <= j < idx - 1 ==> s1[j] == s[j + 1] && s[j + 1] != v);
        lemma_remove_value_at(s1, v, idx - 1);
        assert(seq![s[0]] + s1.remove(idx - 1) =~= s.remove(idx));
    }
}

// ---------------------------------------------------------------------------
// The coalescing model: merge a freed block upward with free buddies
// ---------------------------------------------------------------------------

pub open spec fn has_val(s: Seq<usize>, v: int) -> bool {
    exists|i: int| 0 <= i < s.len() && s[i] == v
}

/// The state of the free lists after freeing a class-c block at p: while the
/// buddy of the growing block is itself free, absorb it; then record the
/// merged block in its class.
pub open spec fn coalesce(free: Seq<Seq<usize>>, p: usize, c: int) -> Seq<Seq<usize>>
    decreases 31 - c,
{
    if 0 <= c < 31 && has_val(free[c], buddy_of(p, c)) {
        coalesce(
            free.update(c, remove_value(free[c], buddy_of(p, c) as usize)),
            merged_of(p, c) as usize,
            c + 1,
        )
    } else {
        free.update(c, sorted_insert(free[c], p))
    }
}

/// How the free lists change when a class-`class` block is taken: the first
/// class i at or above `class` with a free block loses its least element b,
/// and each class in [class, i) gains the matching half of the split.
pub open spec fn take_shape(
    f0: Seq<Seq<usize>>,
    f1: Seq<Seq<usize>>,
    class: int,
    i: int,
    b: usize,
) -> bool {
    &&& class <= i < 32
    &&& (forall|j: int| class <= j < i ==> f0[j].len() == 0)
    &&& f0[i].len() > 0
    &&& b == f0[i][0]
    &&& f1.len() == 32
    &&& f1[i] == f0[i].drop_first()
    &&& (forall|j: int| class <= j < i ==> f1[j] == seq![(b + pow2i(j)) as usize])
    &&& (forall|j: int| 0 <= j < class || i < j < 32 ==> f1[j] == f0[j])
}

// ---------------------------------------------------------------------------
// Region decomposition: the greedy maximal-block tiling of a range
// ---------------------------------------------------------------------------

/// The largest class at most `maxc` whose block size both divides the
/// current position and fits in the remaining length.
pub open spec fn chunk_class(cur: int, rem: int, maxc: int) -> int
    decreases maxc,
{
    if maxc <= 0 {
        0
    } else if cur % pow2i(maxc) == 0 && pow2i(maxc) <= rem {
        maxc
    } else {
        chunk_class(cur, rem, maxc - 1)
    }
}

/// The chunk class divides the position and fits in the remainder.
pub proof fn lemma_chunk_class_fits(cur: int, rem: int, maxc: int)
    requires
        0 <= maxc,
        rem >= 1,
    ensures
        ({
            let c = chunk_class(cur, rem, maxc);
            &&& 0 <= c <= maxc
            &&& cur % pow2i(c) == 0
            &&& pow2i(c) <= rem
        }),
    decreases maxc,
{
    if maxc == 0 || !(cur % pow2i(maxc) == 0 && pow2i(maxc) <= rem) {
        if maxc > 0 {
            lemma_chunk_class_fits(cur, rem, maxc - 1);
        }
    }
}

/// The chunk class is the class where the divisibility-and-fit test last
/// holds: the test holding at c but not at c + 1 pins it.
pub proof fn lemma_chunk_class_at(cur: int, rem: int, maxc: int, c: int)
    requires
        0 <= c <= maxc,
        cur % pow2i(c) == 0,
        pow2i(c) <= rem,
        c < maxc ==> !(cur % pow2i(c + 1) == 0 && pow2i(c + 1) <= rem),
    ensures
        chunk_class(cur, rem, maxc) == c,
    decreases maxc,
{
    if maxc > c {
        assert(!(cur % pow2i(maxc) == 0 && pow2i(maxc) <= rem)) by {
            if cur % pow2i(maxc) == 0 && pow2i(maxc) <= rem {
                lemma_aligned_weaken(cur, maxc, c + 1);
                lemma_pow2i_mono(c + 1, maxc);
            }
        }
        lemma_chunk_class_at(cur, rem, maxc - 1, c);
    }
}

/// The cap on a chunk's class: at the origin the position gives no
/// alignment bound, and 32 units (class 5) stand in for it; everywhere
/// else the top class 31 is the only cap.
pub open spec fn chunk_cap(cur: int) -> int {
    if cur == 0 {
        5
    } else {
        31
    }
}

/// The greedy decomposition of [cur, end) into maximally aligned,
/// maximally sized blocks of at least 2^min_log units, as (position,
/// class) pairs in address order. A tail shorter than 2^min_log is left
/// out.
pub open spec fn decomposition(cur: int, end: int, min_log: int) -> Seq<(usize, int)>
    decreases end - cur,
        via decomposition_decreases
{
    if cur < 0 || cur + pow2i(min_log) > end {
        Seq::empty()
    } else {
        let c = chunk_class(cur, end - cur, chunk_cap(cur));
        seq![(cur as usize, c)] + decomposition(cur + pow2i(c), end, min_log)
    }
}

#[via_fn]
proof fn decomposition_decreases(cur: int, end: int, min_log: int) {
    lemma_pow2i_pos(min_log);
    if !(cur < 0 || cur + pow2i(min_log) > end) {
        lemma_chunk_class_fits(cur, end - cur, chunk_cap(cur));
        lemma_pow2i_pos(chunk_class(cur, end - cur, chunk_cap(cur)));
    }
}

/// Membership in a sequence extended by one element.
pub proof fn lemma_snoc_contains<A>(s: Seq<A>, e: A, x: A)
    ensures
        (s + seq![e]).contains(x) <==> s.contains(x) || x == e,
{
    let r = s + seq![e];
    if r.contains(x) {
        let i = choose|i: int| 0 <= i < r.len() && r[i] == x;
        if i < s.len() {
            assert(s[i] == x);
        } else {
            assert(r[i] == e);
        }
    }
    if s.contains(x) {
        let i = choose|i: int| 0 <= i < s.len() && s[i] == x;
        assert(r[i] == x);
    }
    if x == e {
        assert(r[s.len() as int] == x);
    }
}

// ---------------------------------------------------------------------------
// Request classes
// ---------------------------------------------------------------------------

/// The smallest class at or above `floor` whose block size is at least `n`,
/// or 32 when no class up to 31 is large enough.
pub open spec fn req_class(n: int, floor: int) -> int
    decreases 32 - floor,
{
    if floor >= 32 {
        32
    } else if pow2i(floor) >= n {
        floor
    } else {
        req_class(n, floor + 1)
    }
}

pub proof fn lemma_req_class_bounds(n: int, floor: int)
    requires
        0 <= floor <= 32,
    ensures
        floor <= req_class(n, floor) <= 32,
        req_class(n, floor) < 32 ==> pow2i(req_class(n, floor)) >= n,
    decreases 32 - floor,
{
    if floor < 32 && pow2i(floor) < n {
        lemma_req_class_bounds(n, floor + 1);
    }
}

/// No class below the top holds two blocks that are buddies of each other:
/// coalescing is maximal.
pub open spec fn buddy_free(free: Seq<Seq<usize>>) -> bool {
    forall|k: int, i1: int, i2: int|
        0 <= k < 31 && 0 <= i1 < free[k].len() && 0 <= i2 < free[k].len() && i1 != i2
            ==> (#[trigger] free[k][i2]) != buddy_of(#[trigger] free[k][i1], k)
}

proof fn lemma_sorted_reinsert_min(s: Seq<usize>)
    requires
        sorted(s),
        s.len() > 0,
    ensures
        sorted_insert(s.drop_first(), s[0]) == s,
{
    let s1 = s.drop_first();
    if s1.len() == 0 {
        assert(sorted_insert(s1, s[0]) =~= s);
    } else {
        assert(s1[0] == s[1]);
        assert(s[0] < s1[0]);
        assert(sorted_insert(s1, s[0]) =~= seq![s[0]] + s1);
        assert(seq![s[0]] + s1 =~= s);
    }
}

/// Freeing a block just taken returns the free lists to their prior state,
/// provided coalescing was maximal before the allocation.
pub proof fn lemma_take_coalesce_roundtrip(
    f0: Seq<Seq<usize>>,
    f1: Seq<Seq<usize>>,
    class: int,
    i: int,
    b: usize,
)
    requires
        lists_wf(f0),
        all_sorted(f0),
        buddy_free(f0),
        take_shape(f0, f1, class, i, b),
        0 <= class,
        blk_aligned(b, i),
        blk_fits(b, i),
    ensures
        coalesce(f1, b, class) == f0,
    decreases i - class,
{
    lemma_pow2i_pos(class);
    lemma_pow2i_pos(i);
    if class < i {
        // the buddy of b at this class is exactly the split piece
        lemma_aligned_weaken(b as int, i, class + 1);
        lemma_aligned_weaken(b as int, i, class);
        let piece = (b + pow2i(class)) as usize;
        lemma_pow2i_mono(class + 1, i);
        assert(b + pow2i(class + 1) <= b + pow2i(i));
        assert(buddy_of(b, class) == b + pow2i(class));
        assert(f1[class][0] == piece);
        assert(has_val(f1[class], buddy_of(b, class)));
        assert(merged_of(b, class) == b as int);
        let f2 = f1.update(class, remove_value(f1[class], piece));
        assert(remove_value(f1[class], piece) =~= Seq::<usize>::empty());
        assert(coalesce(f1, b, class) == coalesce(f2, b, class + 1));
        assert(f0[class].len() == 0);
        assert(f2[class] =~= f0[class]);
        assert(take_shape(f0, f2, class + 1, i, b));
        lemma_take_coalesce_roundtrip(f0, f2, class + 1, i, b);
    } else {
        // no free buddy remains at class i
        if i < 31 && has_val(f1[i], buddy_of(b, i)) {
            let n = choose|n: int| 0 <= n < f1[i].len() && f1[i][n] == buddy_of(b, i);
            assert(f1[i][n] == f0[i][n + 1]);
            assert(f0[i][0] == b);
            assert(f0[i][n + 1] != buddy_of(f0[i][0], i));
            assert(false);
        }
        assert(coalesce(f1, b, i) == f1.update(i, sorted_insert(f1[i], b)));
        assert(sorted(f0[i]));
        lemma_sorted_reinsert_min(f0[i]);
        assert(f1.update(i, sorted_insert(f1[i], b)) =~= f0);
    }
}

/// Taking a block keeps coalescing maximal: a split only fills classes
/// that were empty, with one piece each, and only removes blocks
/// otherwise.
pub proof fn lemma_take_buddy_free(
    f0: Seq<Seq<usize>>,
    f1: Seq<Seq<usize>>,
    class: int,
    i: int,
    b: usize,
)
    requires
        buddy_free(f0),
        take_shape(f0, f1, class, i, b),
    ensures
        buddy_free(f1),
{
    assert forall|k: int, i1: int, i2: int|
        0 <= k < 31 && 0 <= i1 < f1[k].len() && 0 <= i2 < f1[k].len() && i1 != i2
            implies (#[trigger] f1[k][i2]) != buddy_of(#[trigger] f1[k][i1], k) by {
        if class <= k < i {
            assert(f1[k].len() == 1);
        } else if k == i {
            assert(f1[k][i1] == f0[k][i1 + 1]);
            assert(f1[k][i2] == f0[k][i2 + 1]);
            assert(f0[k][i2 + 1] != buddy_of(f0[k][i1 + 1], k));
        } else {
            assert(f1[k] == f0[k]);
            assert(f0[k][i2] != buddy_of(f0[k][i1], k));
        }
    }
}

/// Freeing a block keeps coalescing maximal: if no class held two buddies
/// before, none does after the freed block has been merged in.
pub proof fn lemma_coalesce_buddy_free(f0: Seq<Seq<usize>>, p: usize, c: int)
    requires
        lists_wf(f0),
        all_sorted(f0),
        free_disjoint(f0),
        buddy_free(f0),
        0 <= c < 32,
        blk_aligned(p, c),
        blk_fits(p, c),
        blk_free_disjoint(f0, p, c),
    ensures
        buddy_free(coalesce(f0, p, c)),
    decreases 31 - c,
{
    lemma_pow2i_pos(c);
    lemma_addr_cap();
    if 0 <= c < 31 && has_val(f0[c], buddy_of(p, c)) {
        lemma_buddy(p, c);
        let bd = buddy_of(p, c) as usize;
        let ii = choose|ii: int| 0 <= ii < f0[c].len() && f0[c][ii] == buddy_of(p, c);
        assert(f0[c][ii] == bd);
        assert(f0[c].contains(bd));
        lemma_remove_value_facts(f0[c], bd);
        let f1 = f0.update(c, remove_value(f0[c], bd));
        let m = merged_of(p, c) as usize;
        assert(coalesce(f0, p, c) == coalesce(f1, m, c + 1));
        // every remaining block is disjoint from the freed block and from
        // the absorbed buddy, hence from the merged block
        assert forall|k: int, jj: int|
            0 <= k < 32 && 0 <= jj < f1[k].len() implies blk_disjoint(
            m,
            c + 1,
            #[trigger] f1[k][jj],
            k,
        ) && blk_aligned(f1[k][jj], k) && blk_fits(f1[k][jj], k) by {
            lemma_pow2i_pos(k);
            let oi = if k == c {
                choose|oi: int| 0 <= oi < f0[k].len() && f0[k][oi] == f1[k][jj]
            } else {
                jj
            };
            assert(f0[k][oi] == f1[k][jj]);
            assert(blk_disjoint(p, c, f0[k][oi], k));
            if k == c {
                assert(f1[k][jj] != bd);
                assert(oi != ii);
            }
            assert(blk_disjoint(f0[k][oi], k, f0[c][ii], c));
        }
        assert forall|k1: int, i1: int, k2: int, i2: int|
            0 <= k1 < 32 && 0 <= i1 < f1[k1].len() && 0 <= k2 < 32 && 0 <= i2 < f1[k2].len()
                && (k1 != k2 || i1 != i2) implies blk_disjoint(
            #[trigger] f1[k1][i1],
            k1,
            #[trigger] f1[k2][i2],
            k2,
        ) by {
            let o1 = if k1 == c {
                choose|oi: int| 0 <= oi < f0[k1].len() && f0[k1][oi] == f1[k1][i1]
            } else {
                i1
            };
            let o2 = if k2 == c {
                choose|oi: int| 0 <= oi < f0[k2].len() && f0[k2][oi] == f1[k2][i2]
            } else {
                i2
            };
            assert(f0[k1][o1] == f1[k1][i1]);
            assert(f0[k2][o2] == f1[k2][i2]);
            if k1 == k2 && f1[k1][i1] == f1[k2][i2] {
                assert(sorted(f1[k1]));
                assert(false);
            }
            assert(blk_disjoint(f0[k1][o1], k1, f0[k2][o2], k2));
        }
        assert forall|k: int, i1: int, i2: int|
            0 <= k < 31 && 0 <= i1 < f1[k].len() && 0 <= i2 < f1[k].len() && i1 != i2
                implies (#[trigger] f1[k][i2]) != buddy_of(#[trigger] f1[k][i1], k) by {
            let o1 = if k == c {
                choose|oi: int| 0 <= oi < f0[k].len() && f0[k][oi] == f1[k][i1]
            } else {
                i1
            };
            let o2 = if k == c {
                choose|oi: int| 0 <= oi < f0[k].len() && f0[k][oi] == f1[k][i2]
            } else {
                i2
            };
            assert(f0[k][o1] == f1[k][i1]);
            assert(f0[k][o2] == f1[k][i2]);
            if o1 == o2 {
                assert(f1[k][i1] == f1[k][i2]);
                assert(sorted(f1[k]));
                assert(false);
            }
            assert(f0[k][o2] != buddy_of(f0[k][o1], k));
        }
        lemma_coalesce_buddy_free(f1, m, c + 1);
    } else {
        assert(coalesce(f0, p, c) == f0.update(c, sorted_insert(f0[c], p)));
        let r = f0.update(c, sorted_insert(f0[c], p));
        assert(!f0[c].contains(p)) by {
            if f0[c].contains(p) {
                let oi = choose|oi: int| 0 <= oi < f0[c].len() && f0[c][oi] == p;
                assert(blk_disjoint(p, c, f0[c][oi], c));
            }
        }
        lemma_sorted_insert_facts(f0[c], p);
        assert forall|k: int, i1: int, i2: int|
            0 <= k < 31 && 0 <= i1 < r[k].len() && 0 <= i2 < r[k].len() && i1 != i2
                implies (#[trigger] r[k][i2]) != buddy_of(#[trigger] r[k][i1], k) by {
            if k == c {
                assert(sorted(r[k]));
                assert(r[k][i1] != r[k][i2]);
                let v1 = r[k][i1];
                let v2 = r[k][i2];
                if v1 == p || v2 == p {
                    let x = if v1 == p { v2 } else { v1 };
                    assert(f0[c].contains(x));
                    let ox = choose|ox: int| 0 <= ox < f0[c].len() && f0[c][ox] == x;
                    // the loop stopped because p's buddy is not free here
                    assert(x != buddy_of(p, c));
                    // and by the buddy involution p is not x's buddy either
                    lemma_buddy(x, c);
                    if p == buddy_of(x, c) {
                        assert(buddy_of((buddy_of(x, c) as usize), c) == x as int);
                        assert(false);
                    }
                } else {
                    let o1 = choose|oi: int| 0 <= oi < f0[k].len() && f0[k][oi] == v1;
                    let o2 = choose|oi: int| 0 <= oi < f0[k].len() && f0[k][oi] == v2;
                    if o1 == o2 {
                        assert(false);
                    }
                    assert(f0[k][o2] != buddy_of(f0[k][o1], k));
                }
            }
        }
    }
}

// ---------------------------------------------------------------------------
// Live allocations (ghost bookkeeping): (position, class) pairs
// ---------------------------------------------------------------------------

pub open spec fn live_wf(live: Seq<(usize, usize)>) -> bool {
    &&& forall|j: int|
        0 <= j < live.len() ==> (#[trigger] live[j]).1 < 32 && blk_aligned(
            live[j].0,
            live[j].1 as int,
        ) && blk_fits(live[j].0, live[j].1 as int)
    &&& forall|j1: int, j2: int|
        0 <= j1 < live.len() && 0 <= j2 < live.len() && j1 != j2 ==> blk_disjoint(
            (#[trigger] live[j1]).0,
            live[j1].1 as int,
            (#[trigger] live[j2]).0,
            live[j2].1 as int,
        )
}

/// Every live block is disjoint from every free block.
pub open spec fn live_free_disjoint(free: Seq<Seq<usize>>, live: Seq<(usize, usize)>) -> bool {
    forall|j: int|
        0 <= j < live.len() ==> blk_free_disjoint(free, (#[trigger] live[j]).0, live[j].1 as int)
}

/// Sum of the block sizes of the live allocations.
pub open spec fn sum_sizes(live: Seq<(usize, usize)>) -> int
    decreases live.len(),
{
    if live.len() == 0 {
        0
    } else {
        sum_sizes(live.drop_last()) + pow2i(live.last().1 as int)
    }
}

pub proof fn lemma_sum_sizes_nonneg(live: Seq<(usize, usize)>)
    ensures
        sum_sizes(live) >= 0,
    decreases live.len(),
{
    if live.len() > 0 {
        lemma_sum_sizes_nonneg(live.drop_last());
        lemma_pow2i_pos(live.last().1 as int);
    }
}

pub proof fn lemma_sum_sizes_remove(live: Seq<(usize, usize)>, idx: int)
    requires
        0 <= idx < live.len(),
    ensures
        sum_sizes(live.remove(idx)) == sum_sizes(live) - pow2i(live[idx].1 as int),
    decreases live.len(),
{
    if idx == live.len() - 1 {
        assert(live.remove(idx) =~= live.drop_last());
    } else {
        let l1 = live.drop_last();
        lemma_sum_sizes_remove(l1, idx);
        assert(live.remove(idx).drop_last() =~= l1.remove(idx));
        assert(live.remove(idx).last() == live.last());
    }
}

/// Sum of a sequence of request sizes.
pub open spec fn sum_vals(vals: Seq<usize>) -> int
    decreases vals.len(),
{
    if vals.len() == 0 {
        0
    } else {
        sum_vals(vals.drop_last()) + vals.last()
    }
}

pub proof fn lemma_sum_vals_nonneg(vals: Seq<usize>)
    ensures
        sum_vals(vals) >= 0,
    decreases vals.len(),
{
    if vals.len() > 0 {
        lemma_sum_vals_nonneg(vals.drop_last());
    }
}

pub proof fn lemma_sum_vals_remove(vals: Seq<usize>, idx: int)
    requires
        0 <= idx < vals.len(),
    ensures
        sum_vals(vals.remove(idx)) == sum_vals(vals) - vals[idx],
    decreases vals.len(),
{
    if idx == vals.len() - 1 {
        assert(vals.remove(idx) =~= vals.drop_last());
    } else {
        let v1 = vals.drop_last();
        lemma_sum_vals_remove(v1, idx);
        assert(vals.remove(idx).drop_last() =~= v1.remove(idx));
        assert(vals.remove(idx).last() == vals.last());
    }
}

/// A pointwise bound on the summands bounds the sums.
pub proof fn lemma_sum_vals_le_sizes(vals: Seq<usize>, live: Seq<(usize, usize)>)
    requires
        vals.len() == live.len(),
        forall|j: int| 0 <= j < vals.len() ==> vals[j] <= pow2i((#[trigger] live[j]).1 as int),
    ensures
        sum_vals(vals) <= sum_sizes(live),
    decreases vals.len(),
{
    if vals.len() > 0 {
        assert(vals.drop_last().len() == live.drop_last().len());
        lemma_sum_vals_le_sizes(vals.drop_last(), live.drop_last());
        assert(vals.last() <= pow2i(live[vals.len() - 1].1 as int));
    }
}

} // verus!
