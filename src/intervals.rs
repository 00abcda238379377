use vstd::prelude::*;
use vstd::seq_lib::group_to_multiset_ensures;

verus! {

broadcast use group_to_multiset_ensures;

/// A mask `(lo, hi)` covers the unit cell `[t, t + 1]` when the cell lies
/// within it.
pub open spec fn covers(m: (i64, i64), t: int) -> bool {
    m.0 <= t && t + 1 <= m.1
}

pub open spec fn cell_free(masks: Seq<(i64, i64)>, t: int) -> bool {
    forall|k: int| 0 <= k < masks.len() ==> !covers(#[trigger] masks[k], t)
}

/// The interval `piece` meets no mask in more than an end point.
pub open spec fn clear_of(piece: (i64, i64), masks: Seq<(i64, i64)>) -> bool {
    forall|k: int|
        0 <= k < masks.len() ==> piece.1 <= (#[trigger] masks[k]).0 || masks[k].1 <= piece.0
}

pub open spec fn masks_within(lo: int, hi: int, masks: Seq<(i64, i64)>) -> bool {
    forall|k: int|
        0 <= k < masks.len() ==> lo <= (#[trigger] masks[k]).0 && masks[k].0 < masks[k].1 && masks[k].1
            <= hi
}

pub open spec fn sorted_by_end_desc(masks: Seq<(i64, i64)>) -> bool {
    forall|a: int, b: int| 0 <= a < b < masks.len() ==> (#[trigger] masks[a]).1 >= (#[trigger] masks[b]).1
}

/// The masks ordered by descending upper bound.
pub fn sort_by_end_desc(masks: &Vec<(i64, i64)>) -> (r: Vec<(i64, i64)>)
    ensures
        r@.to_multiset() == masks@.to_multiset(),
        sorted_by_end_desc(r@),
{
    let mut sorted: Vec<(i64, i64)> = Vec::new();
    let mut i: usize = 0;
    while i < masks.len()
        invariant
            i <= masks.len(),
            sorted@.to_multiset() == masks@.subrange(0, i as int).to_multiset(),
            sorted_by_end_desc(sorted@),
        decreases masks.len() - i,
    {
        let m = masks[i];
        let mut j: usize = 0;
        while j < sorted.len() && sorted[j].1 >= m.1
            invariant
                j <= sorted.len(),
                forall|k: int| 0 <= k < j ==> (#[trigger] sorted@[k]).1 >= m.1,
            decreases sorted.len() - j,
        {
            j = j + 1;
        }
        proof {
            sorted@.insert_ensures(j as int, m);
            assert(masks@.subrange(0, i + 1) == masks@.subrange(0, i as int).push(m));
        }
        sorted.insert(j, m);
        i = i + 1;
    }
    proof {
        assert(masks@.subrange(0, masks.len() as int) == masks@);
    }
    sorted
}

/// The maximal runs of `[lo, hi]` that no mask covers, each of positive
/// length, from the highest down.
///
/// Masks are walked by descending upper bound; each gap between the low end
/// of what remains and the top of the next mask is a run.
pub fn free_runs(lo: i64, hi: i64, masks: &Vec<(i64, i64)>) -> (r: Vec<(i64, i64)>)
    requires
        lo <= hi,
        masks_within(lo as int, hi as int, masks@),
    ensures
        forall|i: int| 0 <= i < r.len() ==> lo <= (#[trigger] r@[i]).0 < r@[i].1 <= hi,
        forall|i: int| 0 <= i < r.len() ==> clear_of(#[trigger] r@[i], masks@),
        forall|t: int|
            lo <= t < hi && cell_free(masks@, t) ==> exists|i: int|
                0 <= i < r.len() && covers(#[trigger] r@[i], t),
        forall|i: int| 0 < i < r.len() ==> #[trigger] r@[i].1 < r@[i - 1].0,
        forall|i: int|
            0 <= i < r.len() ==> ((#[trigger] r@[i]).0 == lo || !cell_free(masks@, r@[i].0 - 1)) && (
            r@[i].1 == hi || !cell_free(masks@, r@[i].1 as int)),
{
    let sorted = sort_by_end_desc(masks);
    proof {
        assert forall|k: int| 0 <= k < sorted.len() implies lo <= (#[trigger] sorted@[k]).0
            && sorted@[k].0 < sorted@[k].1 && sorted@[k].1 <= hi by {
            assert(sorted@.to_multiset().count(sorted@[k]) > 0);
            assert(masks@.contains(sorted@[k]));
        }
    }
    let mut runs: Vec<(i64, i64)> = Vec::new();
    let mut top: i64 = hi;
    let mut k: usize = 0;
    while k < sorted.len()
        invariant
            k <= sorted.len(),
            lo <= top <= hi,
            sorted_by_end_desc(sorted@),
            masks_within(lo as int, hi as int, sorted@),
            forall|j: int| 0 <= j < k ==> top <= (#[trigger] sorted@[j]).0,
            forall|i: int| 0 <= i < runs.len() ==> lo <= (#[trigger] runs@[i]).0 < runs@[i].1 <= hi,
            forall|i: int|
                0 <= i < runs.len() ==> clear_of(#[trigger] runs@[i], sorted@.subrange(0, k as int)),
            forall|i: int|
                0 <= i < runs.len() ==> k < sorted.len() ==> sorted@[k as int].1 <= (
                #[trigger] runs@[i]).0,
            forall|t: int|
                top <= t < hi && cell_free(sorted@, t) ==> exists|i: int|
                    0 <= i < runs.len() && covers(#[trigger] runs@[i], t),
            forall|i: int| 0 < i < runs.len() ==> #[trigger] runs@[i].1 < runs@[i - 1].0,
            runs.len() > 0 ==> top < runs@[runs.len() - 1].0,
            top == hi || exists|j: int| 0 <= j < k && (#[trigger] sorted@[j]).0 == top,
            forall|i: int|
                0 <= i < runs.len() ==> ((#[trigger] runs@[i]).0 == lo || !cell_free(sorted@, runs@[i].0 - 1))
                    && (runs@[i].1 == hi || !cell_free(sorted@, runs@[i].1 as int)),
        decreases sorted.len() - k,
    {
        let (mask_lo, mask_hi) = sorted[k];
        let ghost old_runs = runs@;
        let ghost old_top = top;
        if mask_hi < top {
            runs.push((mask_hi, top));
        }
        if mask_lo < top {
            top = mask_lo;
        }
        proof {
            let sub = sorted@.subrange(0, k + 1);
            assert forall|i: int| 0 <= i < runs.len() implies clear_of(#[trigger] runs@[i], sub) by {
                assert forall|j: int| 0 <= j < sub.len() implies runs@[i].1 <= (#[trigger] sub[j]).0
                    || sub[j].1 <= runs@[i].0 by {
                    assert(sub[j] == sorted@[j]);
                    if i < old_runs.len() {
                        assert(runs@[i] == old_runs[i]);
                        if j < k {
                            assert(clear_of(old_runs[i], sorted@.subrange(0, k as int)));
                            assert(sorted@.subrange(0, k as int)[j] == sorted@[j]);
                        }
                    }
                }
            }
            if k + 1 < sorted.len() {
                assert(sorted@[k + 1].1 <= sorted@[k as int].1);
            }
            assert(covers(sorted@[k as int], mask_hi - 1));
            if old_top != hi {
                let j0 = choose|j: int| 0 <= j < k && (#[trigger] sorted@[j]).0 == old_top;
                assert(covers(sorted@[j0], old_top as int));
            }
            assert forall|i: int|
                0 <= i < runs.len() implies ((#[trigger] runs@[i]).0 == lo || !cell_free(sorted@, runs@[i].0 - 1))
                    && (runs@[i].1 == hi || !cell_free(sorted@, runs@[i].1 as int)) by {
                if i < old_runs.len() {
                    assert(runs@[i] == old_runs[i]);
                }
            }
            if top != hi {
                if top == mask_lo {
                    assert(sorted@[k as int].0 == top);
                } else {
                    let j0 = choose|j: int| 0 <= j < k && (#[trigger] sorted@[j]).0 == old_top;
                    assert(sorted@[j0].0 == top);
                }
            }
            assert forall|t: int| top <= t < hi && cell_free(sorted@, t) implies exists|i: int|
                0 <= i < runs.len() && covers(#[trigger] runs@[i], t) by {
                if t < old_top {
                    assert(!covers(sorted@[k as int], t));
                    let i = runs.len() - 1;
                    assert(covers(runs@[i], t));
                } else {
                    let i = choose|i: int| 0 <= i < old_runs.len() && covers(#[trigger] old_runs[i], t);
                    assert(runs@[i] == old_runs[i]);
                }
            }
        }
        k = k + 1;
    }
    let ghost mid_runs = runs@;
    proof {
        if top != hi {
            let j0 = choose|j: int| 0 <= j < sorted.len() && (#[trigger] sorted@[j]).0 == top;
            assert(covers(sorted@[j0], top as int));
        }
    }
    if lo < top {
        runs.push((lo, top));
    }
    proof {
        assert(sorted@.subrange(0, sorted.len() as int) == sorted@);
        assert forall|t: int| !cell_free(sorted@, t) implies !cell_free(masks@, t) by {
            let j = choose|j: int| 0 <= j < sorted.len() && covers(#[trigger] sorted@[j], t);
            assert(sorted@.to_multiset().count(sorted@[j]) > 0);
            assert(masks@.contains(sorted@[j]));
            let jj = choose|jj: int| 0 <= jj < masks.len() && masks@[jj] == sorted@[j];
            assert(covers(masks@[jj], t));
        }
        assert forall|i: int|
            0 <= i < runs.len() implies ((#[trigger] runs@[i]).0 == lo || !cell_free(sorted@, runs@[i].0 - 1))
                && (runs@[i].1 == hi || !cell_free(sorted@, runs@[i].1 as int)) by {
            if i < mid_runs.len() {
                assert(runs@[i] == mid_runs[i]);
            }
        }
        assert forall|i: int| 0 <= i < runs.len() implies clear_of(#[trigger] runs@[i], masks@) by {
            assert forall|j: int| 0 <= j < masks.len() implies runs@[i].1 <= (
            #[trigger] masks@[j]).0 || masks@[j].1 <= runs@[i].0 by {
                assert(masks@.to_multiset().count(masks@[j]) > 0);
                assert(sorted@.contains(masks@[j]));
                let jj = choose|jj: int| 0 <= jj < sorted.len() && sorted@[jj] == masks@[j];
                if i < mid_runs.len() {
                    assert(runs@[i] == mid_runs[i]);
                    assert(clear_of(mid_runs[i], sorted@));
                }
            }
        }
        assert forall|t: int| lo <= t < hi && cell_free(masks@, t) implies exists|i: int|
            0 <= i < runs.len() && covers(#[trigger] runs@[i], t) by {
            assert forall|j: int| 0 <= j < sorted.len() implies !covers(#[trigger] sorted@[j], t) by {
                assert(sorted@.to_multiset().count(sorted@[j]) > 0);
                assert(masks@.contains(sorted@[j]));
                let jj = choose|jj: int| 0 <= jj < masks.len() && masks@[jj] == sorted@[j];
                assert(!covers(masks@[jj], t));
            }
            assert(cell_free(sorted@, t));
            if t < top {
                assert(covers(runs@[runs.len() - 1], t));
            } else {
                let i = choose|i: int| 0 <= i < mid_runs.len() && covers(#[trigger] mid_runs[i], t);
                assert(runs@[i] == mid_runs[i]);
            }
        }
    }
    runs
}

} // verus!
