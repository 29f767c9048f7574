use vstd::prelude::*;

use crate::model::{
    blk_aligned, blk_disjoint, blk_fits, blk_free_disjoint, buddy_of, chunk_cap, chunk_class,
    coalesce, decomposition, free_amount, free_disjoint, has_val, lemma_aligned_add_pow2,
    lemma_aligned_weaken, lemma_amount_update, lemma_amount_zero, lemma_buddy,
    lemma_chunk_class_at, lemma_pow2i_mono, lemma_pow2i_pos, lemma_remove_value_at,
    lemma_remove_value_facts, lemma_shl_pow2, lemma_snoc_contains, lemma_sorted_insert_at,
    lemma_sorted_insert_facts, lemma_views_update, lists_wf, merged_of, pow2i,
    region_free_disjoint, remove_value, sorted, sorted_insert, take_shape, views, all_sorted,
};

verus! {

/// Copy of a list of positions.
fn dup(l: &Vec<usize>) -> (r: Vec<usize>)
    ensures
        r@ == l@,
{
    let mut r: Vec<usize> = Vec::new();
    let mut idx: usize = 0;
    while idx < l.len()
        invariant
            idx <= l@.len(),
            r@ == l@.subrange(0, idx as int),
        decreases l@.len() - idx,
    {
        r.push(l[idx]);
        proof {
            assert(r@ =~= l@.subrange(0, idx + 1));
        }
        idx += 1;
    }
    proof {
        assert(r@ =~= l@);
    }
    r
}

/// Remove `v` from the list if present; reports whether it was found.
fn vec_try_remove(l: &mut Vec<usize>, v: usize) -> (found: bool)
    ensures
        found == old(l)@.contains(v),
        found ==> final(l)@ == remove_value(old(l)@, v),
        !found ==> final(l)@ == old(l)@,
{
    let mut idx: usize = 0;
    let n = l.len();
    while idx < n
        invariant
            idx <= n,
            n == l@.len(),
            l@ == old(l)@,
            forall|j: int| 0 <= j < idx ==> l@[j] != v,
        decreases n - idx,
    {
        if l[idx] == v {
            l.remove(idx);
            proof {
                lemma_remove_value_at(old(l)@, v, idx as int);
            }
            return true;
        }
        idx += 1;
    }
    proof {
        if old(l)@.contains(v) {
            let i = choose|i: int| 0 <= i < old(l)@.len() && old(l)@[i] == v;
            assert(old(l)@[i] != v);
        }
    }
    false
}

/// Insert `v` into a sorted list of distinct positions.
fn vec_sorted_insert(l: &mut Vec<usize>, v: usize)
    requires
        sorted(old(l)@),
        !old(l)@.contains(v),
    ensures
        final(l)@ == sorted_insert(old(l)@, v),
{
    let mut idx: usize = 0;
    let n = l.len();
    while idx < n && l[idx] < v
        invariant
            idx <= n,
            n == l@.len(),
            l@ == old(l)@,
            forall|j: int| 0 <= j < idx ==> l@[j] < v,
        decreases n - idx,
    {
        idx += 1;
    }
    proof {
        if (idx as int) < old(l)@.len() {
            assert(old(l)@[idx as int] != v);
        }
        lemma_sorted_insert_at(old(l)@, v, idx as int);
    }
    l.insert(idx, v);
}

/// The smallest class whose block is at least `n` units, or 32 when no
/// class up to 31 suffices.
pub(crate) fn class_for(n: usize) -> (c: usize)
    ensures
        c == crate::model::req_class(n as int, 0),
        c <= 32,
{
    let mut c: usize = 0;
    while c < 32 && (1usize << c) < n
        invariant
            c <= 32,
            crate::model::req_class(n as int, 0) == crate::model::req_class(n as int, c as int),
        decreases 32 - c,
    {
        proof {
            lemma_shl_pow2(c);
        }
        c += 1;
    }
    proof {
        if c < 32 {
            lemma_shl_pow2(c);
        }
    }
    c
}

/// The 32 empty free lists.
pub(crate) fn new_lists() -> (r: Vec<Vec<usize>>)
    ensures
        lists_wf(views(r@)),
        all_sorted(views(r@)),
        free_disjoint(views(r@)),
        free_amount(views(r@)) == 0,
        forall|k: int| 0 <= k < 32 ==> views(r@)[k].len() == 0,
{
    let mut r: Vec<Vec<usize>> = Vec::new();
    let mut n: usize = 0;
    while n < 32
        invariant
            n <= 32,
            r@.len() == n,
            forall|j: int| 0 <= j < n ==> r@[j]@.len() == 0,
        decreases 32 - n,
    {
        r.push(Vec::new());
        n += 1;
    }
    proof {
        assert(forall|k: int| 0 <= k < 32 ==> views(r@)[k].len() == 0);
        lemma_amount_zero(views(r@), 32);
    }
    r
}

/// Take a block of class `class` from the free lists: find the first
/// non-empty class at or above it, split downward, and return the block.
pub(crate) fn take_block(lists: &mut Vec<Vec<usize>>, class: usize) -> (r: Option<usize>)
    requires
        class < 32,
        lists_wf(views(old(lists)@)),
        all_sorted(views(old(lists)@)),
        free_disjoint(views(old(lists)@)),
    ensures
        lists_wf(views(final(lists)@)),
        all_sorted(views(final(lists)@)),
        free_disjoint(views(final(lists)@)),
        match r {
            Option::None => {
                &&& views(final(lists)@) == views(old(lists)@)
                &&& forall|j: int| class <= j < 32 ==> views(old(lists)@)[j].len() == 0
            },
            Option::Some(b) => {
                &&& exists|i: int|
                    take_shape(views(old(lists)@), views(final(lists)@), class as int, i, b)
                &&& free_amount(views(final(lists)@)) == free_amount(views(old(lists)@)) - pow2i(
                    class as int,
                )
                &&& blk_aligned(b, class as int)
                &&& blk_fits(b, class as int)
                &&& blk_free_disjoint(views(final(lists)@), b, class as int)
                &&& forall|q: usize, kq: int|
                    blk_free_disjoint(views(old(lists)@), q, kq) ==> blk_free_disjoint(
                        views(final(lists)@),
                        q,
                        kq,
                    ) && blk_disjoint(q, kq, b, class as int)
            },
        },
{
    let ghost f0 = views(old(lists)@);
    proof {
        assert(lists@.len() == 32);
    }
    let mut i = class;
    while i < 32 && lists[i].len() == 0
        invariant
            class <= i <= 32,
            lists@ == old(lists)@,
            lists@.len() == 32,
            f0 == views(lists@),
            forall|j: int| class <= j < i ==> f0[j].len() == 0,
        decreases 32 - i,
    {
        proof {
            assert(f0[i as int] == lists@[i as int]@);
        }
        i += 1;
    }
    proof {
        if i < 32 {
            assert(f0[i as int] == lists@[i as int]@);
        }
    }
    if i == 32 {
        return None;
    }
    assert(f0[i as int].len() > 0);
    let mut li = dup(&lists[i]);
    let b = li.remove(0);
    let ghost lsprev = lists@;
    lists.set(i, li);
    proof {
        lemma_views_update(lsprev, i as int, lists@[i as int]);
        assert(f0[i as int].remove(0) =~= f0[i as int].drop_first());
        assert(blk_aligned(b, i as int) && blk_fits(b, i as int));
    }
    let ghost fmid = views(lists@);
    proof {
        assert(fmid == f0.update(i as int, f0[i as int].drop_first()));
        assert(b == f0[i as int][0]);
        lemma_amount_update(f0, fmid, i as int);
        assert(fmid[i as int].len() == f0[i as int].len() - 1);
        assert(free_amount(fmid) == free_amount(f0) + (fmid[i as int].len() - f0[i as int].len()) * pow2i(i as int));
        assert((fmid[i as int].len() - f0[i as int].len()) * pow2i(i as int) == -1 * pow2i(i as int)) by (nonlinear_arith)
            requires fmid[i as int].len() == f0[i as int].len() - 1;
        assert(-1 * pow2i(i as int) == -pow2i(i as int)) by (nonlinear_arith);
        assert(free_amount(fmid) == free_amount(f0) - pow2i(i as int));
        lemma_pow2i_pos(i as int);
        // the removed block is disjoint from everything that remains
        assert forall|k: int, ii: int|
            0 <= k < 32 && 0 <= ii < fmid[k].len() implies blk_disjoint(
            b,
            i as int,
            fmid[k][ii],
            k,
        ) by {
            if k == i {
                assert(fmid[k][ii] == f0[k][ii + 1]);
                assert(blk_disjoint(f0[i as int][0], i as int, f0[k][ii + 1], k));
            } else {
                assert(blk_disjoint(f0[i as int][0], i as int, f0[k][ii], k));
            }
        }
        assert(blk_free_disjoint(fmid, b, i as int));
        assert forall|k: int, ii: int|
            0 <= k < 32 && 0 <= ii < fmid[k].len() implies blk_aligned(
            #[trigger] fmid[k][ii],
            k,
        ) && blk_fits(fmid[k][ii], k) by {
            if k == i {
                assert(fmid[k][ii] == f0[k][ii + 1]);
            }
        }
        assert forall|k1: int, i1: int, k2: int, i2: int|
            0 <= k1 < 32 && 0 <= i1 < fmid[k1].len() && 0 <= k2 < 32 && 0 <= i2
                < fmid[k2].len() && (k1 != k2 || i1 != i2) implies blk_disjoint(
            #[trigger] fmid[k1][i1],
            k1,
            #[trigger] fmid[k2][i2],
            k2,
        ) by {
            let j1 = if k1 == i { i1 + 1 } else { i1 };
            let j2 = if k2 == i { i2 + 1 } else { i2 };
            assert(fmid[k1][i1] == f0[k1][j1]);
            assert(fmid[k2][i2] == f0[k2][j2]);
            assert(blk_disjoint(f0[k1][j1], k1, f0[k2][j2], k2));
        }
        assert forall|k: int| 0 <= k < 32 implies sorted(#[trigger] fmid[k]) by {
            assert(sorted(f0[k]));
            if k == i {
                assert(forall|ii: int| 0 <= ii < fmid[k].len() ==> fmid[k][ii] == f0[k][ii + 1]);
            }
        }
        assert forall|q: usize, kq: int|
            blk_free_disjoint(f0, q, kq) implies blk_free_disjoint(fmid, q, kq)
                && blk_disjoint(q, kq, b, i as int) by {
            assert(blk_disjoint(q, kq, f0[i as int][0], i as int));
            assert forall|k: int, ii: int|
                0 <= k < 32 && 0 <= ii < fmid[k].len() implies blk_disjoint(
                q,
                kq,
                #[trigger] fmid[k][ii],
                k,
            ) by {
                if k == i {
                    assert(fmid[k][ii] == f0[k][ii + 1]);
                    assert(blk_disjoint(q, kq, f0[k][ii + 1], k));
                } else {
                    assert(blk_disjoint(q, kq, f0[k][ii], k));
                }
            }
        }
    }
    // split downward: each class in [class, i) receives the upper half
    let mut j = i;
    while j > class
        invariant
            class <= j <= i < 32,
            lists@.len() == 32,
            views(lists@).len() == 32,
            lists_wf(views(lists@)),
            all_sorted(views(lists@)),
            free_disjoint(views(lists@)),
            blk_aligned(b, i as int),
            blk_fits(b, i as int),
            blk_free_disjoint(views(lists@), b, j as int),
            free_amount(views(lists@)) == free_amount(f0) - pow2i(j as int),
            views(lists@)[i as int] == f0[i as int].drop_first(),
            forall|m: int| class <= m < j ==> views(lists@)[m] == f0[m],
            forall|m: int| class <= m < j ==> f0[m].len() == 0,
            forall|m: int|
                j <= m < i ==> views(lists@)[m] == seq![(b + pow2i(m)) as usize],
            forall|m: int| 0 <= m < class || i < m < 32 ==> views(lists@)[m] == f0[m],
            forall|q: usize, kq: int|
                blk_free_disjoint(f0, q, kq) ==> blk_free_disjoint(views(lists@), q, kq)
                    && blk_disjoint(q, kq, b, j as int),
        decreases j,
    {
        j -= 1;
        proof {
            assert(class <= j < i);
            assert(views(lists@)[j as int] == f0[j as int]);
            assert(f0[j as int].len() == 0);
            lemma_shl_pow2(j);
            lemma_pow2i_mono(j as int + 1, i as int);
            lemma_pow2i_pos(j as int);
            lemma_aligned_weaken(b as int, i as int, j as int);
            lemma_aligned_weaken(b as int, i as int, j as int + 1);
            lemma_aligned_add_pow2(b as int, j as int);
        }
        let piece = b + (1usize << j);
        let mut lj: Vec<usize> = Vec::new();
        lj.push(piece);
        let ghost fprev = views(lists@);
        let ghost lsp = lists@;
        lists.set(j, lj);
        proof {
            lemma_views_update(lsp, j as int, lists@[j as int]);
            assert(lists@[j as int]@ =~= seq![piece]);
            assert(views(lists@) =~= fprev.update(j as int, seq![piece]));
            let fcur = views(lists@);
            // the piece is the upper half of the class-(j+1) block at b
            assert(piece + pow2i(j as int) == b + pow2i(j as int + 1));
            assert(blk_aligned(piece, j as int));
            assert(blk_fits(piece, j as int));
            assert(fprev[j as int].len() == 0);
            lemma_amount_update(fprev, fcur, j as int);
            assert(pow2i(j as int + 1) == 2 * pow2i(j as int));
            assert(fcur[j as int].len() == 1);
            assert((fcur[j as int].len() - fprev[j as int].len()) * pow2i(j as int) == 1 * pow2i(
                j as int,
            ));
            assert(1 * pow2i(j as int) == pow2i(j as int)) by (nonlinear_arith);
            assert(free_amount(fcur) == free_amount(f0) - pow2i(j as int));
            // every previous block is disjoint from [b, b + 2^(j+1)), so from the piece
            assert forall|k: int, ii: int|
                0 <= k < 32 && 0 <= ii < fcur[k].len() && (k != j || ii != 0)
                    implies blk_disjoint(piece, j as int, #[trigger] fcur[k][ii], k) by {
                assert(fcur[k][ii] == fprev[k][ii]);
                assert(blk_disjoint(b, j as int + 1, fprev[k][ii], k));
            }
            assert forall|k1: int, i1: int, k2: int, i2: int|
                0 <= k1 < 32 && 0 <= i1 < fcur[k1].len() && 0 <= k2 < 32 && 0 <= i2
                    < fcur[k2].len() && (k1 != k2 || i1 != i2) implies blk_disjoint(
                #[trigger] fcur[k1][i1],
                k1,
                #[trigger] fcur[k2][i2],
                k2,
            ) by {
                if k1 == j && i1 == 0 {
                    assert(blk_disjoint(piece, j as int, fcur[k2][i2], k2));
                } else if k2 == j && i2 == 0 {
                    assert(blk_disjoint(piece, j as int, fcur[k1][i1], k1));
                } else {
                    assert(fcur[k1][i1] == fprev[k1][i1]);
                    assert(fcur[k2][i2] == fprev[k2][i2]);
                }
            }
            assert forall|q: usize, kq: int|
                blk_free_disjoint(f0, q, kq) implies blk_free_disjoint(fcur, q, kq)
                    && blk_disjoint(q, kq, b, j as int) by {
                assert(blk_free_disjoint(fprev, q, kq));
                assert(blk_disjoint(q, kq, b, j as int + 1));
                assert forall|k: int, ii: int|
                    0 <= k < 32 && 0 <= ii < fcur[k].len() implies blk_disjoint(
                    q,
                    kq,
                    #[trigger] fcur[k][ii],
                    k,
                ) by {
                    if k == j && ii == 0 {
                        assert(fcur[k][ii] == piece);
                    } else {
                        assert(fcur[k][ii] == fprev[k][ii]);
                    }
                }
            }
            assert forall|k: int, ii: int|
                0 <= k < 32 && 0 <= ii < fcur[k].len() implies blk_disjoint(
                b,
                j as int,
                #[trigger] fcur[k][ii],
                k,
            ) by {
                if k == j && ii == 0 {
                    assert(fcur[k][ii] == piece);
                } else {
                    assert(fcur[k][ii] == fprev[k][ii]);
                    assert(blk_disjoint(b, j as int + 1, fprev[k][ii], k));
                }
            }
        }
    }
    proof {
        assert(take_shape(f0, views(lists@), class as int, i as int, b));
        lemma_aligned_weaken(b as int, i as int, class as int);
        lemma_pow2i_mono(class as int, i as int);
    }
    Some(b)
}

/// Free a block of class `class` at `p`: absorb free buddies upward, then
/// record the merged block.
pub(crate) fn coalesce_up(lists: &mut Vec<Vec<usize>>, p: usize, class: usize)
    requires
        class < 32,
        lists_wf(views(old(lists)@)),
        all_sorted(views(old(lists)@)),
        free_disjoint(views(old(lists)@)),
        blk_aligned(p, class as int),
        blk_fits(p, class as int),
        blk_free_disjoint(views(old(lists)@), p, class as int),
    ensures
        lists_wf(views(final(lists)@)),
        all_sorted(views(final(lists)@)),
        free_disjoint(views(final(lists)@)),
        views(final(lists)@) == coalesce(views(old(lists)@), p, class as int),
        free_amount(views(final(lists)@)) == free_amount(views(old(lists)@)) + pow2i(class as int),
        forall|q: usize, kq: int|
            blk_free_disjoint(views(old(lists)@), q, kq) && blk_disjoint(
                q,
                kq,
                p,
                class as int,
            ) ==> blk_free_disjoint(views(final(lists)@), q, kq),
{
    let ghost f0 = views(old(lists)@);
    let mut cp = p;
    let mut c = class;
    let mut stop = false;
    while !stop && c < 31
        invariant
            class <= c < 32,
            lists@.len() == 32,
            lists_wf(views(lists@)),
            all_sorted(views(lists@)),
            free_disjoint(views(lists@)),
            blk_aligned(cp, c as int),
            blk_fits(cp, c as int),
            blk_free_disjoint(views(lists@), cp, c as int),
            coalesce(f0, p, class as int) == coalesce(views(lists@), cp, c as int),
            free_amount(views(lists@)) == free_amount(f0) - (pow2i(c as int) - pow2i(
                class as int,
            )),
            cp <= p,
            p + pow2i(class as int) <= cp + pow2i(c as int),
            forall|q: usize, kq: int|
                blk_free_disjoint(f0, q, kq) && blk_disjoint(q, kq, p, class as int)
                    ==> blk_free_disjoint(views(lists@), q, kq) && blk_disjoint(
                    q,
                    kq,
                    cp,
                    c as int,
                ),
            stop ==> !has_val(views(lists@)[c as int], buddy_of(cp, c as int)),
        decreases 31 - c, if stop { 0int } else { 1 },
    {
        proof {
            assert(usize::BITS == 32 || usize::BITS == 64);
            lemma_buddy(cp, c as int);
            lemma_shl_pow2(c);
            lemma_shl_pow2((c + 1) as usize);
        }
        let m = 1usize << c;
        let m2 = 1usize << (c + 1);
        let bd: usize = if cp % m2 == 0 {
            cp + m
        } else {
            cp - m
        };
        proof {
            assert(bd as int == buddy_of(cp, c as int));
        }
        let mut lc = dup(&lists[c]);
        let found = vec_try_remove(&mut lc, bd);
        if found {
            let ghost fprev = views(lists@);
            lists.set(c, lc);
            proof {
                let fcur = views(lists@);
                assert(fcur =~= fprev.update(c as int, remove_value(fprev[c as int], bd)));
                lemma_remove_value_facts(fprev[c as int], bd);
                lemma_amount_update(fprev, fcur, c as int);
                assert(pow2i(c as int + 1) == 2 * pow2i(c as int));
                assert(fcur[c as int].len() - fprev[c as int].len() == -1);
                assert((fcur[c as int].len() - fprev[c as int].len()) * pow2i(c as int) == -1
                    * pow2i(c as int));
                assert(-1 * pow2i(c as int) == -pow2i(c as int)) by (nonlinear_arith);
                assert(free_amount(fcur) == free_amount(fprev) - pow2i(c as int));
                assert(has_val(fprev[c as int], buddy_of(cp, c as int))) by {
                    let ii = choose|ii: int|
                        0 <= ii < fprev[c as int].len() && fprev[c as int][ii] == bd;
                    assert(fprev[c as int][ii] == buddy_of(cp, c as int));
                }
                // the buddy block, as a free block, is aligned and fits
                let ii = choose|ii: int|
                    0 <= ii < fprev[c as int].len() && fprev[c as int][ii] == bd;
                assert(blk_aligned(bd, c as int) && blk_fits(bd, c as int));
                // every remaining block is disjoint from both the removed
                // buddy and the freed block
                assert forall|k: int, jj: int|
                    0 <= k < 32 && 0 <= jj < fcur[k].len() implies blk_disjoint(
                    bd,
                    c as int,
                    #[trigger] fcur[k][jj],
                    k,
                ) && blk_disjoint(cp, c as int, fcur[k][jj], k) by {
                    if k == c {
                        assert(fprev[k].contains(fcur[k][jj]) && fcur[k][jj] != bd);
                        let oi = choose|oi: int|
                            0 <= oi < fprev[k].len() && fprev[k][oi] == fcur[k][jj];
                        assert(oi != ii);
                        assert(blk_disjoint(fprev[k][oi], k, fprev[c as int][ii], c as int));
                        assert(blk_disjoint(cp, c as int, fprev[k][oi], k));
                    } else {
                        assert(blk_disjoint(fprev[k][jj], k, fprev[c as int][ii], c as int));
                        assert(blk_disjoint(cp, c as int, fprev[k][jj], k));
                    }
                }
                // well-formedness of the shrunk lists
                assert forall|k: int, jj: int|
                    0 <= k < 32 && 0 <= jj < fcur[k].len() implies blk_aligned(
                    #[trigger] fcur[k][jj],
                    k,
                ) && blk_fits(fcur[k][jj], k) by {
                    if k == c {
                        assert(fprev[k].contains(fcur[k][jj]));
                        let oi = choose|oi: int|
                            0 <= oi < fprev[k].len() && fprev[k][oi] == fcur[k][jj];
                        assert(blk_aligned(fprev[k][oi], k));
                    }
                }
                assert forall|k1: int, i1: int, k2: int, i2: int|
                    0 <= k1 < 32 && 0 <= i1 < fcur[k1].len() && 0 <= k2 < 32 && 0 <= i2
                        < fcur[k2].len() && (k1 != k2 || i1 != i2) implies blk_disjoint(
                    #[trigger] fcur[k1][i1],
                    k1,
                    #[trigger] fcur[k2][i2],
                    k2,
                ) by {
                    if k1 != c && k2 != c {
                        assert(blk_disjoint(fprev[k1][i1], k1, fprev[k2][i2], k2));
                    } else {
                        // map back into the previous lists
                        let o1 = if k1 == c {
                            choose|oi: int|
                                0 <= oi < fprev[k1].len() && fprev[k1][oi] == fcur[k1][i1]
                        } else {
                            i1
                        };
                        let o2 = if k2 == c {
                            choose|oi: int|
                                0 <= oi < fprev[k2].len() && fprev[k2][oi] == fcur[k2][i2]
                        } else {
                            i2
                        };
                        assert(fprev[k1][o1] == fcur[k1][i1]);
                        assert(fprev[k2][o2] == fcur[k2][i2]);
                        if k1 == k2 && fcur[k1][i1] == fcur[k2][i2] {
                            assert(sorted(fcur[k1]));
                            assert(false);
                        }
                        assert(blk_disjoint(fprev[k1][o1], k1, fprev[k2][o2], k2));
                    }
                }
            }
            let ncp = if bd < cp {
                bd
            } else {
                cp
            };
            proof {
                let fcur = views(lists@);
                assert(ncp as int == merged_of(cp, c as int));
                assert(merged_of(cp, c as int) as usize == ncp);
                assert(buddy_of(cp, c as int) as usize == bd);
                // merged block facts
                assert(blk_aligned(ncp, c as int + 1));
                assert(blk_fits(ncp, c as int + 1));
                assert forall|k: int, jj: int|
                    0 <= k < 32 && 0 <= jj < fcur[k].len() implies blk_disjoint(
                    ncp,
                    c as int + 1,
                    #[trigger] fcur[k][jj],
                    k,
                ) by {
                    lemma_pow2i_pos(k);
                    lemma_pow2i_pos(c as int);
                    assert(pow2i(c as int + 1) == 2 * pow2i(c as int));
                    assert(blk_disjoint(cp, c as int, fcur[k][jj], k));
                    assert(blk_disjoint(bd, c as int, fcur[k][jj], k));
                }
                assert(free_amount(fcur) == free_amount(f0) - (pow2i(c as int + 1) - pow2i(
                    class as int,
                )));
                assert(fcur == fprev.update(
                    c as int,
                    remove_value(fprev[c as int], buddy_of(cp, c as int) as usize),
                ));
                assert(coalesce(fprev, cp, c as int) == coalesce(fcur, ncp, c as int + 1));
                assert(coalesce(f0, p, class as int) == coalesce(fcur, ncp, c as int + 1));
                assert forall|q: usize, kq: int|
                    blk_free_disjoint(f0, q, kq) && blk_disjoint(q, kq, p, class as int)
                        implies blk_free_disjoint(fcur, q, kq) && blk_disjoint(
                    q,
                    kq,
                    ncp,
                    c as int + 1,
                ) by {
                    lemma_pow2i_pos(kq);
                    lemma_pow2i_pos(c as int);
                    assert(pow2i(c as int + 1) == 2 * pow2i(c as int));
                    assert(blk_free_disjoint(fprev, q, kq));
                    assert(blk_disjoint(q, kq, cp, c as int));
                    let bi = choose|bi: int|
                        0 <= bi < fprev[c as int].len() && fprev[c as int][bi] == bd;
                    assert(blk_disjoint(q, kq, fprev[c as int][bi], c as int));
                    assert forall|k: int, jj: int|
                        0 <= k < 32 && 0 <= jj < fcur[k].len() implies blk_disjoint(
                        q,
                        kq,
                        #[trigger] fcur[k][jj],
                        k,
                    ) by {
                        if k == c {
                            assert(fprev[k].contains(fcur[k][jj]));
                            let oi = choose|oi: int|
                                0 <= oi < fprev[k].len() && fprev[k][oi] == fcur[k][jj];
                            assert(blk_disjoint(q, kq, fprev[k][oi], k));
                        } else {
                            assert(blk_disjoint(q, kq, fprev[k][jj], k));
                        }
                    }
                }
            }
            cp = ncp;
            c += 1;
        } else {
            stop = true;
            proof {
                if has_val(views(lists@)[c as int], buddy_of(cp, c as int)) {
                    let ii = choose|ii: int|
                        0 <= ii < views(lists@)[c as int].len() && views(lists@)[c as int][ii]
                            == buddy_of(cp, c as int);
                    assert(views(lists@)[c as int].contains(bd));
                }
            }
        }
    }
    // record the merged block in class c
    proof {
        let fcur = views(lists@);
        assert(!fcur[c as int].contains(cp)) by {
            if fcur[c as int].contains(cp) {
                let ii = choose|ii: int|
                    0 <= ii < fcur[c as int].len() && fcur[c as int][ii] == cp;
                assert(blk_disjoint(cp, c as int, fcur[c as int][ii], c as int));
                lemma_pow2i_pos(c as int);
            }
        }
        lemma_sorted_insert_facts(fcur[c as int], cp);
    }
    let ghost fprev = views(lists@);
    let mut lc = dup(&lists[c]);
    vec_sorted_insert(&mut lc, cp);
    lists.set(c, lc);
    proof {
        let fcur = views(lists@);
        assert(fcur =~= fprev.update(c as int, sorted_insert(fprev[c as int], cp)));
        assert(!(0 <= c < 31 && has_val(fprev[c as int], buddy_of(cp, c as int))));
        assert(fcur == coalesce(fprev, cp, c as int));
        lemma_amount_update(fprev, fcur, c as int);
        lemma_pow2i_pos(c as int);
        assert(fcur[c as int].len() - fprev[c as int].len() == 1);
        assert((fcur[c as int].len() - fprev[c as int].len()) * pow2i(c as int) == 1 * pow2i(
            c as int,
        ));
        assert(1 * pow2i(c as int) == pow2i(c as int)) by (nonlinear_arith);
        assert(free_amount(fcur) == free_amount(f0) + pow2i(class as int));
        // well-formedness with the inserted block
        assert forall|k: int, jj: int|
            0 <= k < 32 && 0 <= jj < fcur[k].len() implies blk_aligned(
            #[trigger] fcur[k][jj],
            k,
        ) && blk_fits(fcur[k][jj], k) by {
            if k == c {
                if fprev[k].contains(fcur[k][jj]) {
                    let oi = choose|oi: int|
                        0 <= oi < fprev[k].len() && fprev[k][oi] == fcur[k][jj];
                    assert(blk_aligned(fprev[k][oi], k));
                } else {
                    assert(fcur[k][jj] == cp);
                }
            }
        }
        assert forall|k1: int, i1: int, k2: int, i2: int|
            0 <= k1 < 32 && 0 <= i1 < fcur[k1].len() && 0 <= k2 < 32 && 0 <= i2 < fcur[k2].len()
                && (k1 != k2 || i1 != i2) implies blk_disjoint(
            #[trigger] fcur[k1][i1],
            k1,
            #[trigger] fcur[k2][i2],
            k2,
        ) by {
            if k1 == k2 && fcur[k1][i1] == fcur[k2][i2] {
                assert(sorted(fcur[k1]));
                assert(false);
            }
            let c1 = k1 == c && fcur[k1][i1] == cp;
            let c2 = k2 == c && fcur[k2][i2] == cp;
            if c1 && c2 {
                assert(false);
            } else if c1 {
                let o2 = if k2 == c {
                    choose|oi: int| 0 <= oi < fprev[k2].len() && fprev[k2][oi] == fcur[k2][i2]
                } else {
                    i2
                };
                assert(fprev[k2][o2] == fcur[k2][i2]);
                assert(blk_disjoint(cp, c as int, fprev[k2][o2], k2));
            } else if c2 {
                let o1 = if k1 == c {
                    choose|oi: int| 0 <= oi < fprev[k1].len() && fprev[k1][oi] == fcur[k1][i1]
                } else {
                    i1
                };
                assert(fprev[k1][o1] == fcur[k1][i1]);
                assert(blk_disjoint(cp, c as int, fprev[k1][o1], k1));
            } else {
                let o1 = if k1 == c {
                    choose|oi: int| 0 <= oi < fprev[k1].len() && fprev[k1][oi] == fcur[k1][i1]
                } else {
                    i1
                };
                let o2 = if k2 == c {
                    choose|oi: int| 0 <= oi < fprev[k2].len() && fprev[k2][oi] == fcur[k2][i2]
                } else {
                    i2
                };
                assert(fprev[k1][o1] == fcur[k1][i1]);
                assert(fprev[k2][o2] == fcur[k2][i2]);
                if k1 == k2 && o1 == o2 {
                    assert(false);
                }
                assert(blk_disjoint(fprev[k1][o1], k1, fprev[k2][o2], k2));
            }
        }
        assert forall|q: usize, kq: int|
            blk_free_disjoint(f0, q, kq) && blk_disjoint(q, kq, p, class as int)
                implies blk_free_disjoint(fcur, q, kq) by {
            assert(blk_free_disjoint(fprev, q, kq));
            assert(blk_disjoint(q, kq, cp, c as int));
            assert forall|k: int, jj: int|
                0 <= k < 32 && 0 <= jj < fcur[k].len() implies blk_disjoint(
                q,
                kq,
                #[trigger] fcur[k][jj],
                k,
            ) by {
                if fprev[k].contains(fcur[k][jj]) {
                    let oi = choose|oi: int|
                        0 <= oi < fprev[k].len() && fprev[k][oi] == fcur[k][jj];
                    assert(blk_disjoint(q, kq, fprev[k][oi], k));
                } else {
                    assert(k == c && fcur[k][jj] == cp);
                }
            }
        }
    }
}

/// Decompose the region [start, end) into maximally aligned, maximally sized
/// blocks of at least 2^min_log units and add them to the free lists.
/// Returns the number of units added.
pub(crate) fn add_region(lists: &mut Vec<Vec<usize>>, start: usize, end: usize, min_log: usize)
    -> (added: usize)
    requires
        min_log <= 3,
        start <= end,
        end - start < pow2i(32),
        lists_wf(views(old(lists)@)),
        all_sorted(views(old(lists)@)),
        free_disjoint(views(old(lists)@)),
        region_free_disjoint(views(old(lists)@), start as int, end as int),
    ensures
        lists_wf(views(final(lists)@)),
        all_sorted(views(final(lists)@)),
        free_disjoint(views(final(lists)@)),
        added <= end - start,
        end - start - added < pow2i(min_log as int),
        free_amount(views(final(lists)@)) == free_amount(views(old(lists)@)) + added,
        forall|q: usize, kq: int|
            blk_free_disjoint(views(old(lists)@), q, kq) && (q + pow2i(kq) <= start || end <= q)
                ==> blk_free_disjoint(views(final(lists)@), q, kq),
        forall|k: int, x: usize|
            0 <= k < 32 ==> ((#[trigger] views(final(lists)@)[k].contains(x))
                <==> views(old(lists)@)[k].contains(x) || decomposition(
                start as int,
                end as int,
                min_log as int,
            ).contains((x, k))),
        end - start < pow2i(min_log as int) ==> views(final(lists)@) == views(old(lists)@) && added
            == 0,
    decreases end - start,
{
    let ghost f0 = views(old(lists)@);
    proof {
        lemma_shl_pow2(min_log);
    }
    let min_size = 1usize << min_log;
    let mut cur = start;
    let mut added: usize = 0;
    let ghost mut done: Seq<(usize, int)> = Seq::empty();
    proof {
        assert(Seq::<(usize, int)>::empty() + decomposition(
            start as int,
            end as int,
            min_log as int,
        ) =~= decomposition(start as int, end as int, min_log as int));
    }
    while end - cur >= min_size
        invariant
            start <= cur <= end,
            added == cur - start,
            decomposition(start as int, end as int, min_log as int) == done + decomposition(
                cur as int,
                end as int,
                min_log as int,
            ),
            forall|k: int, x: usize|
                0 <= k < 32 ==> ((#[trigger] views(lists@)[k].contains(x)) <==> f0[k].contains(x)
                    || done.contains((x, k))),
            min_size == pow2i(min_log as int),
            1 <= min_size,
            lists@.len() == 32,
            lists_wf(views(lists@)),
            all_sorted(views(lists@)),
            free_disjoint(views(lists@)),
            region_free_disjoint(views(lists@), cur as int, end as int),
            free_amount(views(lists@)) == free_amount(f0) + added,
            forall|q: usize, kq: int|
                blk_free_disjoint(f0, q, kq) && (q + pow2i(kq) <= start || end <= q)
                    ==> blk_free_disjoint(views(lists@), q, kq),
            end - start < pow2i(min_log as int) ==> cur == start && views(lists@) == f0,
        decreases end - cur,
    {
        let maxc: usize = if cur == 0 {
            5
        } else {
            31
        };
        let mut c: usize = 0;
        let mut climbing = true;
        proof {
            assert(cur as int % pow2i(0) == 0);
            lemma_pow2i_pos(0);
        }
        while climbing && c < maxc
            invariant
                c <= maxc <= 31,
                cur as int % pow2i(c as int) == 0,
                pow2i(c as int) <= end - cur,
                cur <= end,
                !climbing ==> !(cur as int % pow2i(c as int + 1) == 0 && pow2i(c as int + 1)
                    <= end - cur),
            decreases maxc - c, if climbing { 1int } else { 0 },
        {
            proof {
                lemma_shl_pow2((c + 1) as usize);
            }
            let nxt = 1usize << (c + 1);
            if cur % nxt == 0 && nxt <= end - cur {
                c += 1;
            } else {
                climbing = false;
            }
        }
        proof {
            lemma_shl_pow2(c);
            assert(maxc as int == chunk_cap(cur as int));
            lemma_chunk_class_at(cur as int, end - cur, maxc as int, c as int);
            assert(decomposition(cur as int, end as int, min_log as int) == seq![
                (cur, c as int),
            ] + decomposition(cur as int + pow2i(c as int), end as int, min_log as int));
        }
        let size = 1usize << c;
        let ghost fprev = views(lists@);
        proof {
            // the new block lies in [cur, end), so it is absent and disjoint
            assert(!fprev[c as int].contains(cur)) by {
                if fprev[c as int].contains(cur) {
                    let ii = choose|ii: int|
                        0 <= ii < fprev[c as int].len() && fprev[c as int][ii] == cur;
                    assert(fprev[c as int][ii] + pow2i(c as int) <= cur || end <= fprev[c as int][ii]);
                    lemma_pow2i_pos(c as int);
                }
            }
            lemma_sorted_insert_facts(fprev[c as int], cur);
        }
        let mut lc = dup(&lists[c]);
        vec_sorted_insert(&mut lc, cur);
        lists.set(c, lc);
        proof {
            let fcur = views(lists@);
            assert(fcur =~= fprev.update(c as int, sorted_insert(fprev[c as int], cur)));
            lemma_amount_update(fprev, fcur, c as int);
            lemma_pow2i_pos(c as int);
            assert(fcur[c as int].len() - fprev[c as int].len() == 1);
            assert((fcur[c as int].len() - fprev[c as int].len()) * pow2i(c as int) == 1 * pow2i(
                c as int,
            ));
            assert(1 * pow2i(c as int) == pow2i(c as int)) by (nonlinear_arith);
            assert(free_amount(fcur) == free_amount(f0) + added + size);
            assert forall|k: int, jj: int|
                0 <= k < 32 && 0 <= jj < fcur[k].len() implies blk_aligned(
                #[trigger] fcur[k][jj],
                k,
            ) && blk_fits(fcur[k][jj], k) by {
                if k == c && !fprev[k].contains(fcur[k][jj]) {
                    assert(fcur[k][jj] == cur);
                } else if fprev[k].contains(fcur[k][jj]) {
                    let oi = choose|oi: int|
                        0 <= oi < fprev[k].len() && fprev[k][oi] == fcur[k][jj];
                    assert(blk_aligned(fprev[k][oi], k));
                }
            }
            assert forall|k1: int, i1: int, k2: int, i2: int|
                0 <= k1 < 32 && 0 <= i1 < fcur[k1].len() && 0 <= k2 < 32 && 0 <= i2
                    < fcur[k2].len() && (k1 != k2 || i1 != i2) implies blk_disjoint(
                #[trigger] fcur[k1][i1],
                k1,
                #[trigger] fcur[k2][i2],
                k2,
            ) by {
                if k1 == k2 && fcur[k1][i1] == fcur[k2][i2] {
                    assert(sorted(fcur[k1]));
                    assert(false);
                }
                let c1 = k1 == c && fcur[k1][i1] == cur;
                let c2 = k2 == c && fcur[k2][i2] == cur;
                if c1 && c2 {
                    assert(false);
                } else if c1 || c2 {
                    let ko = if c1 { k2 } else { k1 };
                    let io = if c1 { i2 } else { i1 };
                    let oo = if ko == c {
                        choose|oi: int| 0 <= oi < fprev[ko].len() && fprev[ko][oi] == fcur[ko][io]
                    } else {
                        io
                    };
                    assert(fprev[ko][oo] == fcur[ko][io]);
                    assert(fprev[ko][oo] + pow2i(ko) <= cur || end <= fprev[ko][oo]);
                } else {
                    let o1 = if k1 == c {
                        choose|oi: int| 0 <= oi < fprev[k1].len() && fprev[k1][oi] == fcur[k1][i1]
                    } else {
                        i1
                    };
                    let o2 = if k2 == c {
                        choose|oi: int| 0 <= oi < fprev[k2].len() && fprev[k2][oi] == fcur[k2][i2]
                    } else {
                        i2
                    };
                    assert(fprev[k1][o1] == fcur[k1][i1]);
                    assert(fprev[k2][o2] == fcur[k2][i2]);
                    if k1 == k2 && o1 == o2 {
                        assert(false);
                    }
                    assert(blk_disjoint(fprev[k1][o1], k1, fprev[k2][o2], k2));
                }
            }
            assert forall|k: int, jj: int|
                0 <= k < 32 && 0 <= jj < fcur[k].len() implies (#[trigger] fcur[k][jj])
                    + pow2i(k) <= cur + size || end <= fcur[k][jj] by {
                if fprev[k].contains(fcur[k][jj]) {
                    let oi = choose|oi: int|
                        0 <= oi < fprev[k].len() && fprev[k][oi] == fcur[k][jj];
                    assert(fprev[k][oi] + pow2i(k) <= cur || end <= fprev[k][oi]);
                } else {
                    assert(k == c && fcur[k][jj] == cur);
                }
            }
            assert forall|q: usize, kq: int|
                blk_free_disjoint(f0, q, kq) && (q + pow2i(kq) <= start || end <= q)
                    implies blk_free_disjoint(fcur, q, kq) by {
                assert(blk_free_disjoint(fprev, q, kq));
                assert forall|k: int, jj: int|
                    0 <= k < 32 && 0 <= jj < fcur[k].len() implies blk_disjoint(
                    q,
                    kq,
                    #[trigger] fcur[k][jj],
                    k,
                ) by {
                    if fprev[k].contains(fcur[k][jj]) {
                        let oi = choose|oi: int|
                            0 <= oi < fprev[k].len() && fprev[k][oi] == fcur[k][jj];
                        assert(blk_disjoint(q, kq, fprev[k][oi], k));
                    } else {
                        assert(k == c && fcur[k][jj] == cur);
                    }
                }
            }
        }
        proof {
            let fcur = views(lists@);
            let e = (cur, c as int);
            let dold = done;
            done = done + seq![e];
            assert(decomposition(start as int, end as int, min_log as int) == done
                + decomposition(cur as int + pow2i(c as int), end as int, min_log as int)) by {
                assert((dold + seq![e]) + decomposition(
                    cur as int + pow2i(c as int),
                    end as int,
                    min_log as int,
                ) =~= dold + (seq![e] + decomposition(
                    cur as int + pow2i(c as int),
                    end as int,
                    min_log as int,
                )));
            }
            assert forall|k: int, x: usize|
                0 <= k < 32 implies ((#[trigger] fcur[k].contains(x)) <==> f0[k].contains(x)
                    || done.contains((x, k))) by {
                lemma_snoc_contains(dold, e, (x, k));
                if k == c {
                    if fcur[k].contains(x) {
                        let oi = choose|oi: int| 0 <= oi < fcur[k].len() && fcur[k][oi] == x;
                        assert(fprev[k].contains(fcur[k][oi]) || fcur[k][oi] == cur);
                    }
                    if fprev[k].contains(x) || x == cur {
                        assert(fcur[k].contains(x));
                    }
                    assert(fprev[k].contains(x) <==> f0[k].contains(x) || dold.contains((x, k)));
                } else {
                    assert(fcur[k] == fprev[k]);
                    assert(fprev[k].contains(x) <==> f0[k].contains(x) || dold.contains((x, k)));
                }
            }
        }
        cur = cur + size;
        added = added + size;
    }
    proof {
        assert(decomposition(cur as int, end as int, min_log as int) == Seq::<(usize, int)>::empty());
        assert(done + Seq::<(usize, int)>::empty() =~= done);
    }
    added
}

} // verus!
