use vstd::prelude::*;
use vstd::seq_lib::group_to_multiset_ensures;
use crate::geometry::{across, Edge, Side, COORD_LIMIT};

verus! {

broadcast use group_to_multiset_ensures;

/// The coordinate, across `p`, of the low corner of a square of side `size`
/// that sits flush against `p` on the side that `p` opens into.
pub open spec fn corner_pos(p: Edge, size: int) -> int {
    if p.side == Side::Negative {
        p.pos - size
    } else {
        p.pos as int
    }
}

/// A perpendicular edge `q` stands in the way of squares of side `size`
/// sliding along `p`: it lies strictly within the reach of `p` and meets the
/// band that such squares occupy.
pub open spec fn blocks(q: Edge, p: Edge, size: int) -> bool {
    &&& p.start - size < q.pos < p.end + size
    &&& q.end > corner_pos(p, size)
    &&& corner_pos(p, size) + size > q.start
}

/// The parallel edge `p2` already runs, within `slack`, along the whole
/// footprint of squares placed on `o`, through their interior.
pub open spec fn spans(p2: Edge, o: Edge, size: int, slack: int) -> bool {
    &&& o.pos < p2.pos < o.pos + size
    &&& p2.start - slack <= o.start
    &&& o.end + size <= p2.end + slack
}

/// `o` is a range of low-corner positions, along `p`, of squares of side
/// `size` that sit flush against `p`.
pub open spec fn placement_on(o: Edge, p: Edge, size: int) -> bool {
    &&& o.axis == p.axis
    &&& o.side == p.side
    &&& o.pos == corner_pos(p, size)
    &&& p.start - size <= o.start
    &&& o.start < o.end
    &&& o.end <= p.end
}

/// The whole range of low-corner positions along `p` at which a square of
/// side `size` still touches `p`.
pub open spec fn full_window(p: Edge, size: int) -> Edge {
    Edge { start: (p.start - size) as i64, end: p.end, pos: corner_pos(p, size) as i64, ..p }
}

/// None of `perp` stands in the way of squares along `p`.
pub open spec fn unblocked(p: Edge, perp: Seq<Edge>, size: int) -> bool {
    forall|k: int| 0 <= k < perp.len() ==> !blocks(#[trigger] perp[k], p, size)
}

/// No edge of `parallel` spans `o`.
pub open spec fn not_spanned(parallel: Seq<Edge>, o: Edge, size: int, slack: int) -> bool {
    forall|j: int| 0 <= j < parallel.len() ==> !spans(#[trigger] parallel[j], o, size, slack)
}

pub open spec fn sorted_by_pos(edges: Seq<Edge>) -> bool {
    forall|a: int, b: int| 0 <= a < b < edges.len() ==> (#[trigger] edges[a]).pos <= (#[trigger] edges[b]).pos
}

/// `e` inserted into `s` after every edge whose `pos` is at most `e.pos`.
pub open spec fn insert_by_pos(s: Seq<Edge>, e: Edge) -> Seq<Edge>
    decreases s.len(),
{
    if s.len() == 0 || s.last().pos <= e.pos {
        s.push(e)
    } else {
        insert_by_pos(s.drop_last(), e).push(s.last())
    }
}

/// The edges in ascending order of `pos`, those with equal `pos` in the
/// order in which they come in `s`.
pub open spec fn by_pos(s: Seq<Edge>) -> Seq<Edge>
    decreases s.len(),
{
    if s.len() == 0 {
        s
    } else {
        insert_by_pos(by_pos(s.drop_last()), s.last())
    }
}

proof fn lemma_insert_by_pos(s: Seq<Edge>, e: Edge, j: int)
    requires
        sorted_by_pos(s),
        0 <= j <= s.len(),
        forall|k: int| 0 <= k < j ==> (#[trigger] s[k]).pos <= e.pos,
        j == s.len() || s[j].pos > e.pos,
    ensures
        s.insert(j, e) == insert_by_pos(s, e),
    decreases s.len(),
{
    if s.len() == 0 {
        assert(s.insert(j, e) =~= s.push(e));
    } else if s.last().pos <= e.pos {
        if j < s.len() {
            assert(s[j].pos <= s.last().pos);
        }
        assert(s.insert(j, e) =~= s.push(e));
    } else {
        let rest = s.drop_last();
        assert(j < s.len());
        assert(sorted_by_pos(rest));
        assert forall|k: int| 0 <= k < j implies (#[trigger] rest[k]).pos <= e.pos by {
            assert(rest[k] == s[k]);
        }
        if j < rest.len() {
            assert(rest[j] == s[j]);
        }
        lemma_insert_by_pos(rest, e, j);
        assert(s.insert(j, e) =~= rest.insert(j, e).push(s.last()));
    }
}

/// The edges ordered by ascending `pos`, those with equal `pos` in their
/// order of input.
pub fn sort_by_pos(edges: &Vec<Edge>) -> (r: Vec<Edge>)
    ensures
        r@ == by_pos(edges@),
        r@.to_multiset() == edges@.to_multiset(),
        sorted_by_pos(r@),
{
    let mut sorted: Vec<Edge> = Vec::new();
    let mut i: usize = 0;
    while i < edges.len()
        invariant
            i <= edges.len(),
            sorted@.to_multiset() == edges@.subrange(0, i as int).to_multiset(),
            sorted_by_pos(sorted@),
            sorted@ == by_pos(edges@.subrange(0, i as int)),
        decreases edges.len() - i,
    {
        let e = edges[i];
        let mut j: usize = 0;
        while j < sorted.len() && sorted[j].pos <= e.pos
            invariant
                j <= sorted.len(),
                forall|k: int| 0 <= k < j ==> (#[trigger] sorted@[k]).pos <= e.pos,
            decreases sorted.len() - j,
        {
            j = j + 1;
        }
        proof {
            sorted@.insert_ensures(j as int, e);
            assert(edges@.subrange(0, i + 1) == edges@.subrange(0, i as int).push(e));
            lemma_insert_by_pos(sorted@, e, j as int);
            assert(edges@.subrange(0, i + 1).drop_last() == edges@.subrange(0, i as int));
        }
        sorted.insert(j, e);
        i = i + 1;
    }
    proof {
        assert(edges@.subrange(0, edges.len() as int) == edges@);
    }
    sorted
}

/// No perpendicular edge that stands in the way of squares along `p` cuts
/// across the footprint span of the positions in `o`.
pub open spec fn unobstructed(o: Edge, p: Edge, perp: Seq<Edge>, size: int) -> bool {
    forall|k: int|
        0 <= k < perp.len() && blocks(#[trigger] perp[k], p, size) ==> !(o.start < perp[k].pos
            && perp[k].pos < o.end + size)
}

/// `o` is a placement range along one of the `parallel` edges that none of the
/// `perpendicular` edges obstructs.
pub open spec fn placed_along(o: Edge, parallel: Seq<Edge>, perp: Seq<Edge>, size: int) -> bool {
    exists|j: int|
        0 <= j < parallel.len() && placement_on(o, #[trigger] parallel[j], size) && unobstructed(
            o,
            parallel[j],
            perp,
            size,
        )
}

/// The range of low-corner positions `[start, end]` along `p`.
pub open spec fn window(p: Edge, start: int, end: int, size: int) -> Edge {
    Edge { start: start as i64, end: end as i64, pos: corner_pos(p, size) as i64, ..p }
}

/// The walk along `p` over the edges of `perp` in order: the open window
/// `(start, end)` and the ranges emitted so far. Only edges that block `p`
/// count. One that opens towards higher coordinates starts a window at its
/// position that runs to the end of `p`'s reach; one that opens towards lower
/// coordinates ends the window there, emitting it where squares fit in it,
/// and the next window starts at its position.
pub open spec fn walk(p: Edge, perp: Seq<Edge>, size: int) -> (int, int, Seq<Edge>)
    decreases perp.len(),
{
    if perp.len() == 0 {
        (p.start - size, p.end + size, Seq::empty())
    } else {
        let (start, end, found) = walk(p, perp.drop_last(), size);
        let q = perp.last();
        if !blocks(q, p, size) {
            (start, end, found)
        } else if q.side == Side::Positive {
            (q.pos as int, p.end + size, found)
        } else if q.pos - size > start {
            (q.pos as int, q.pos as int, found.push(window(p, start, q.pos - size, size)))
        } else {
            (q.pos as int, q.pos as int, found)
        }
    }
}

/// The ranges that the walk emits, followed by the window left open at its
/// end where squares fit in it.
pub open spec fn windows(p: Edge, perp: Seq<Edge>, size: int) -> Seq<Edge> {
    let (start, end, found) = walk(p, perp, size);
    if end - size > start {
        found.push(window(p, start, end - size, size))
    } else {
        found
    }
}

/// The windows of low-corner positions along `p` that the perpendicular edges
/// leave open, walking them by ascending `pos`: an edge that opens towards
/// higher coordinates starts a new window at its position, one that opens
/// towards lower coordinates closes the current window there.
fn windows_along(size: i64, p: Edge, perp: &Vec<Edge>) -> (r: Vec<Edge>)
    requires
        0 < size <= COORD_LIMIT,
        p.wf(),
        sorted_by_pos(perp@),
        forall|k: int| 0 <= k < perp.len() ==> (#[trigger] perp@[k]).wf(),
    ensures
        forall|i: int|
            0 <= i < r.len() ==> placement_on(#[trigger] r@[i], p, size as int) && unobstructed(
                r@[i],
                p,
                perp@,
                size as int,
            ),
        unblocked(p, perp@, size as int) ==> r@ == seq![full_window(p, size as int)],
        r@ == windows(p, perp@, size as int),
{
    let par_start = p.start - size;
    let par_end = p.end + size;
    let band_start = if p.side == Side::Negative { p.pos - size } else { p.pos };
    let band_end = band_start + size;
    let mut open_start = par_start;
    let mut open_end = par_end;
    let mut found: Vec<Edge> = Vec::new();
    let mut m: usize = 0;
    while m < perp.len()
        invariant
            m <= perp.len(),
            0 < size <= COORD_LIMIT,
            p.wf(),
            sorted_by_pos(perp@),
            forall|k: int| 0 <= k < perp.len() ==> (#[trigger] perp@[k]).wf(),
            par_start == p.start - size,
            par_end == p.end + size,
            band_start == corner_pos(p, size as int),
            band_end == band_start + size,
            par_start <= open_start < par_end,
            open_end == par_end || open_end == open_start,
            forall|k: int| 0 <= k < m && blocks(#[trigger] perp@[k], p, size as int) ==> perp@[k].pos
                <= open_start,
            forall|k: int| m <= k < perp.len() && blocks(#[trigger] perp@[k], p, size as int) ==> open_start
                <= perp@[k].pos,
            forall|i: int|
                0 <= i < found.len() ==> placement_on(#[trigger] found@[i], p, size as int)
                    && unobstructed(found@[i], p, perp@, size as int),
            unblocked(p, perp@, size as int) ==> open_start == par_start && open_end == par_end
                && found@.len() == 0,
            walk(p, perp@.subrange(0, m as int), size as int) == (
                open_start as int,
                open_end as int,
                found@,
            ),
        decreases perp.len() - m,
    {
        let q = perp[m];
        proof {
            let sub = perp@.subrange(0, m + 1);
            assert(sub.drop_last() == perp@.subrange(0, m as int));
            assert(sub.last() == q);
        }
        if q.pos > par_start && q.pos < par_end && q.end > band_start && band_end > q.start {
            match q.side {
                Side::Positive => {
                    open_end = par_end;
                },
                Side::Negative => {
                    open_end = q.pos;
                    if q.pos - size > open_start {
                        let w = Edge { start: open_start, end: q.pos - size, pos: band_start, ..p };
                        proof {
                            assert forall|k: int|
                                0 <= k < perp.len() && blocks(#[trigger] perp@[k], p, size as int) implies !(
                            w.start < perp@[k].pos && perp@[k].pos < w.end + size) by {
                                if k > m {
                                    assert(perp@[m as int].pos <= perp@[k].pos);
                                }
                            }
                        }
                        found.push(w);
                    }
                },
            }
            open_start = q.pos;
            proof {
                assert forall|k: int| m + 1 <= k < perp.len() && blocks(#[trigger] perp@[k], p, size as int) implies open_start
                    <= perp@[k].pos by {
                    assert(perp@[m as int].pos <= perp@[k].pos);
                }
            }
        }
        m = m + 1;
    }
    proof {
        assert(perp@.subrange(0, perp.len() as int) == perp@);
    }
    if open_end - size > open_start {
        found.push(Edge { start: open_start, end: open_end - size, pos: band_start, ..p });
    }
    found
}

/// The ranges of `found` that no edge of `parallel` spans, in order.
pub open spec fn unspanned(parallel: Seq<Edge>, found: Seq<Edge>, size: int, slack: int) -> Seq<Edge>
    decreases found.len(),
{
    if found.len() == 0 {
        found
    } else {
        let rest = unspanned(parallel, found.drop_last(), size, slack);
        if not_spanned(parallel, found.last(), size, slack) {
            rest.push(found.last())
        } else {
            rest
        }
    }
}

/// The unspanned windows along each of the first `n` edges of `parallel` in
/// turn, walking the perpendicular edges `perp` in the order given.
pub open spec fn positions_for(
    size: int,
    parallel: Seq<Edge>,
    perp: Seq<Edge>,
    slack: int,
    n: int,
) -> Seq<Edge>
    decreases n,
{
    if n <= 0 {
        Seq::empty()
    } else {
        positions_for(size, parallel, perp, slack, n - 1) + unspanned(
            parallel,
            windows(parallel[n - 1], perp, size),
            size,
            slack,
        )
    }
}

/// The ranges of low-corner positions at which a square of side `size` can
/// sit flush against one of the `parallel` free edges, between the
/// `perpendicular` free edges that stand in its way. A range whose footprint a
/// parallel edge already runs through (within `slack`) is left out.
pub fn get_square_positions(
    size: i64,
    parallel: &Vec<Edge>,
    perpendicular: &Vec<Edge>,
    slack: i64,
) -> (r: Vec<Edge>)
    requires
        0 < size <= COORD_LIMIT,
        0 <= slack <= COORD_LIMIT,
        forall|k: int| 0 <= k < parallel.len() ==> (#[trigger] parallel@[k]).wf(),
        forall|k: int| 0 <= k < perpendicular.len() ==> (#[trigger] perpendicular@[k]).wf(),
    ensures
        forall|i: int|
            0 <= i < r.len() ==> placed_along(#[trigger] r@[i], parallel@, perpendicular@, size as int),
        forall|i: int, j: int|
            0 <= i < r.len() && 0 <= j < parallel.len() ==> !spans(
                #[trigger] parallel@[j],
                #[trigger] r@[i],
                size as int,
                slack as int,
            ),
        forall|j: int|
            0 <= j < parallel.len() && unblocked(#[trigger] parallel@[j], perpendicular@, size as int)
                && not_spanned(parallel@, full_window(parallel@[j], size as int), size as int, slack as int)
                ==> r@.contains(full_window(parallel@[j], size as int)),
        r@ == positions_for(
            size as int,
            parallel@,
            by_pos(perpendicular@),
            slack as int,
            parallel.len() as int,
        ),
{
    let sorted = sort_by_pos(perpendicular);
    proof {
        assert forall|k: int| 0 <= k < sorted.len() implies (#[trigger] sorted@[k]).wf() by {
            assert(sorted@.to_multiset().count(sorted@[k]) > 0);
            assert(perpendicular@.contains(sorted@[k]));
        }
    }
    let mut positions: Vec<Edge> = Vec::new();
    let mut i: usize = 0;
    while i < parallel.len()
        invariant
            i <= parallel.len(),
            0 < size <= COORD_LIMIT,
            0 <= slack <= COORD_LIMIT,
            forall|k: int| 0 <= k < parallel.len() ==> (#[trigger] parallel@[k]).wf(),
            forall|k: int| 0 <= k < sorted.len() ==> (#[trigger] sorted@[k]).wf(),
            sorted_by_pos(sorted@),
            sorted@.to_multiset() == perpendicular@.to_multiset(),
            forall|a: int|
                0 <= a < positions.len() ==> placed_along(#[trigger] positions@[a], parallel@, perpendicular@, size as int),
            forall|a: int, j: int|
                0 <= a < positions.len() && 0 <= j < parallel.len() ==> !spans(
                    #[trigger] parallel@[j],
                    #[trigger] positions@[a],
                    size as int,
                    slack as int,
                ),
            forall|j: int|
                0 <= j < i && unblocked(#[trigger] parallel@[j], perpendicular@, size as int) && not_spanned(
                    parallel@,
                    full_window(parallel@[j], size as int),
                    size as int,
                    slack as int,
                ) ==> positions@.contains(full_window(parallel@[j], size as int)),
            sorted@ == by_pos(perpendicular@),
            positions@ == positions_for(size as int, parallel@, sorted@, slack as int, i as int),
        decreases parallel.len() - i,
    {
        let p = parallel[i];
        proof {
            if unblocked(p, perpendicular@, size as int) {
                assert forall|k: int| 0 <= k < sorted.len() implies !blocks(#[trigger] sorted@[k], p, size as int) by {
                    assert(sorted@.to_multiset().count(sorted@[k]) > 0);
                    assert(perpendicular@.contains(sorted@[k]));
                    let kk = choose|kk: int| 0 <= kk < perpendicular.len() && perpendicular@[kk] == sorted@[k];
                    assert(!blocks(perpendicular@[kk], p, size as int));
                }
            }
        }
        let found = windows_along(size, p, &sorted);
        proof {
            assert(found@.subrange(0, 0) =~= Seq::<Edge>::empty());
            assert(positions@ =~= positions@ + Seq::<Edge>::empty());
        }
        let mut f: usize = 0;
        while f < found.len()
            invariant
                f <= found.len(),
                i < parallel.len(),
                p == parallel@[i as int],
                0 < size <= COORD_LIMIT,
                0 <= slack <= COORD_LIMIT,
                forall|k: int| 0 <= k < parallel.len() ==> (#[trigger] parallel@[k]).wf(),
                sorted@.to_multiset() == perpendicular@.to_multiset(),
                forall|b: int|
                    0 <= b < found.len() ==> placement_on(#[trigger] found@[b], p, size as int)
                        && unobstructed(found@[b], p, sorted@, size as int),
                forall|a: int|
                    0 <= a < positions.len() ==> placed_along(#[trigger] positions@[a], parallel@, perpendicular@, size as int),
                forall|a: int, j: int|
                    0 <= a < positions.len() && 0 <= j < parallel.len() ==> !spans(
                        #[trigger] parallel@[j],
                        #[trigger] positions@[a],
                        size as int,
                        slack as int,
                    ),
                forall|j: int|
                    0 <= j < i && unblocked(#[trigger] parallel@[j], perpendicular@, size as int) && not_spanned(
                        parallel@,
                        full_window(parallel@[j], size as int),
                        size as int,
                        slack as int,
                    ) ==> positions@.contains(full_window(parallel@[j], size as int)),
                unblocked(p, perpendicular@, size as int) ==> found@ == seq![full_window(p, size as int)],
                unblocked(p, perpendicular@, size as int) && not_spanned(
                    parallel@,
                    full_window(p, size as int),
                    size as int,
                    slack as int,
                ) && f > 0 ==> positions@.contains(full_window(p, size as int)),
                found@ == windows(p, sorted@, size as int),
                positions@ == positions_for(size as int, parallel@, sorted@, slack as int, i as int)
                    + unspanned(parallel@, found@.subrange(0, f as int), size as int, slack as int),
            decreases found.len() - f,
        {
            let w = found[f];
            let ghost sub = found@.subrange(0, f + 1);
            proof {
                assert(sub.drop_last() == found@.subrange(0, f as int));
                assert(sub.last() == w);
            }
            let mut covered = false;
            let mut c: usize = 0;
            while c < parallel.len() && !covered
                invariant
                    c <= parallel.len(),
                    0 < size <= COORD_LIMIT,
                    0 <= slack <= COORD_LIMIT,
                    forall|k: int| 0 <= k < parallel.len() ==> (#[trigger] parallel@[k]).wf(),
                    placement_on(w, p, size as int),
                    p == parallel@[i as int],
                    i < parallel.len(),
                    forall|j: int| 0 <= j < c ==> !spans(
                        #[trigger] parallel@[j],
                        w,
                        size as int,
                        slack as int,
                    ),
                    covered ==> c < parallel.len() && spans(parallel@[c as int], w, size as int, slack as int),
                decreases parallel.len() - c + (if covered { 0int } else { 1int }),
            {
                let p2 = parallel[c];
                assert(p2.wf());
                let (reach_start, reach_end, cross_start, cross_end) = w.get_square(size);
                if p2.pos > cross_start && p2.pos < cross_end && p2.start - slack <= reach_start
                    && reach_end <= p2.end + slack {
                    covered = true;
                } else {
                    c = c + 1;
                }
            }
            if !covered {
                proof {
                    assert forall|k: int|
                        0 <= k < perpendicular.len() && blocks(#[trigger] perpendicular@[k], p, size as int) implies !(
                    w.start < perpendicular@[k].pos && perpendicular@[k].pos < w.end + size) by {
                        assert(perpendicular@.to_multiset().count(perpendicular@[k]) > 0);
                        assert(sorted@.contains(perpendicular@[k]));
                        let kk = choose|kk: int| 0 <= kk < sorted.len() && sorted@[kk] == perpendicular@[k];
                        assert(unobstructed(w, p, sorted@, size as int));
                        assert(blocks(sorted@[kk], p, size as int));
                    }
                    assert(placement_on(w, parallel@[i as int], size as int));
                    assert(placed_along(w, parallel@, perpendicular@, size as int));
                }
                let ghost prev = positions@;
                positions.push(w);
                proof {
                    assert(not_spanned(parallel@, w, size as int, slack as int));
                    assert(positions@ =~= positions_for(size as int, parallel@, sorted@, slack as int, i as int)
                        + unspanned(parallel@, sub, size as int, slack as int));
                    assert(positions@[prev.len() as int] == w);
                    assert forall|x: Edge| prev.contains(x) implies positions@.contains(x) by {
                        let a = choose|a: int| 0 <= a < prev.len() && prev[a] == x;
                        assert(positions@[a] == prev[a]);
                    }
                    assert forall|a: int| 0 <= a < positions.len() implies placed_along(
                        #[trigger] positions@[a],
                        parallel@,
                        perpendicular@,
                        size as int,
                    ) by {
                        if a < prev.len() {
                            assert(positions@[a] == prev[a]);
                        }
                    }
                    assert forall|a: int, j: int|
                        0 <= a < positions.len() && 0 <= j < parallel.len() implies !spans(
                        #[trigger] parallel@[j],
                        #[trigger] positions@[a],
                        size as int,
                        slack as int,
                    ) by {
                        if a < prev.len() {
                            assert(positions@[a] == prev[a]);
                        }
                    }
                }
            }
            proof {
                if covered {
                    assert(!not_spanned(parallel@, w, size as int, slack as int));
                }
            }
            f = f + 1;
        }
        proof {
            assert(found@.subrange(0, found.len() as int) == found@);
        }
        i = i + 1;
    }
    proof {
        assert(positions_for(size as int, parallel@, sorted@, slack as int, parallel.len() as int) == positions@);
    }
    positions
}

/// The edge with its axis swapped: its mirror image across the diagonal.
pub open spec fn mirror(e: Edge) -> Edge {
    Edge { axis: across(e.axis), ..e }
}

pub open spec fn mirror_all(s: Seq<Edge>) -> Seq<Edge> {
    s.map_values(|e: Edge| mirror(e))
}

proof fn lemma_mirror_push(s: Seq<Edge>, e: Edge)
    ensures
        mirror_all(s.push(e)) == mirror_all(s).push(mirror(e)),
        mirror_all(s).len() == s.len(),
{
    assert(mirror_all(s.push(e)) =~= mirror_all(s).push(mirror(e)));
}

proof fn lemma_mirror_drop_last(s: Seq<Edge>)
    requires
        s.len() > 0,
    ensures
        mirror_all(s.drop_last()) == mirror_all(s).drop_last(),
        mirror_all(s).last() == mirror(s.last()),
{
    assert(mirror_all(s.drop_last()) =~= mirror_all(s).drop_last());
}

proof fn lemma_mirror_insert(s: Seq<Edge>, e: Edge)
    ensures
        insert_by_pos(mirror_all(s), mirror(e)) == mirror_all(insert_by_pos(s, e)),
    decreases s.len(),
{
    lemma_mirror_push(s, e);
    if s.len() > 0 {
        lemma_mirror_drop_last(s);
        if s.last().pos > e.pos {
            lemma_mirror_insert(s.drop_last(), e);
            lemma_mirror_push(insert_by_pos(s.drop_last(), e), s.last());
        }
    }
}

proof fn lemma_mirror_by_pos(s: Seq<Edge>)
    ensures
        by_pos(mirror_all(s)) == mirror_all(by_pos(s)),
    decreases s.len(),
{
    if s.len() == 0 {
        assert(mirror_all(s) =~= s);
    } else {
        lemma_mirror_drop_last(s);
        lemma_mirror_by_pos(s.drop_last());
        lemma_mirror_insert(by_pos(s.drop_last()), s.last());
    }
}

proof fn lemma_mirror_walk(p: Edge, perp: Seq<Edge>, size: int)
    ensures
        walk(mirror(p), mirror_all(perp), size) == (
            walk(p, perp, size).0,
            walk(p, perp, size).1,
            mirror_all(walk(p, perp, size).2),
        ),
    decreases perp.len(),
{
    if perp.len() == 0 {
        assert(mirror_all(perp) =~= perp);
        assert(mirror_all(Seq::<Edge>::empty()) =~= Seq::<Edge>::empty());
    } else {
        lemma_mirror_drop_last(perp);
        lemma_mirror_walk(p, perp.drop_last(), size);
        let (start, end, found) = walk(p, perp.drop_last(), size);
        let q = perp.last();
        lemma_mirror_push(found, window(p, start, q.pos - size, size));
    }
}

proof fn lemma_mirror_windows(p: Edge, perp: Seq<Edge>, size: int)
    ensures
        windows(mirror(p), mirror_all(perp), size) == mirror_all(windows(p, perp, size)),
{
    lemma_mirror_walk(p, perp, size);
    let (start, end, found) = walk(p, perp, size);
    lemma_mirror_push(found, window(p, start, end - size, size));
}

proof fn lemma_mirror_unspanned(parallel: Seq<Edge>, found: Seq<Edge>, size: int, slack: int)
    ensures
        unspanned(mirror_all(parallel), mirror_all(found), size, slack) == mirror_all(
            unspanned(parallel, found, size, slack),
        ),
    decreases found.len(),
{
    if found.len() == 0 {
        assert(mirror_all(found) =~= found);
    } else {
        lemma_mirror_drop_last(found);
        lemma_mirror_unspanned(parallel, found.drop_last(), size, slack);
        let o = found.last();
        assert(not_spanned(mirror_all(parallel), mirror(o), size, slack) == not_spanned(
            parallel,
            o,
            size,
            slack,
        )) by {
            if not_spanned(parallel, o, size, slack) {
                assert forall|j: int| 0 <= j < mirror_all(parallel).len() implies !spans(
                    #[trigger] mirror_all(parallel)[j],
                    mirror(o),
                    size,
                    slack,
                ) by {
                    assert(!spans(parallel[j], o, size, slack));
                }
            } else {
                let j = choose|j: int| 0 <= j < parallel.len() && spans(#[trigger] parallel[j], o, size, slack);
                assert(spans(mirror_all(parallel)[j], mirror(o), size, slack));
            }
        }
        lemma_mirror_push(unspanned(parallel, found.drop_last(), size, slack), o);
    }
}

/// Mirroring every input edge across the diagonal (swapping its axis) mirrors
/// the candidate positions and changes nothing else: both axes are treated
/// alike, so the same edges given as horizontal and as vertical yield the
/// same ranges on either axis.
pub proof fn lemma_mirrored_positions(size: int, parallel: Seq<Edge>, perpendicular: Seq<Edge>, slack: int)
    ensures
        positions_for(
            size,
            mirror_all(parallel),
            by_pos(mirror_all(perpendicular)),
            slack,
            parallel.len() as int,
        ) == mirror_all(
            positions_for(size, parallel, by_pos(perpendicular), slack, parallel.len() as int),
        ),
{
    lemma_mirror_by_pos(perpendicular);
    lemma_mirror_prefix(size, parallel, by_pos(perpendicular), slack, parallel.len() as int);
}

proof fn lemma_mirror_prefix(size: int, parallel: Seq<Edge>, perp: Seq<Edge>, slack: int, n: int)
    requires
        0 <= n <= parallel.len(),
    ensures
        positions_for(size, mirror_all(parallel), mirror_all(perp), slack, n) == mirror_all(
            positions_for(size, parallel, perp, slack, n),
        ),
    decreases n,
{
    if n == 0 {
        assert(mirror_all(Seq::<Edge>::empty()) =~= Seq::<Edge>::empty());
    } else {
        lemma_mirror_prefix(size, parallel, perp, slack, n - 1);
        let p = parallel[n - 1];
        assert(mirror_all(parallel)[n - 1] == mirror(p));
        lemma_mirror_windows(p, perp, size);
        lemma_mirror_unspanned(parallel, windows(p, perp, size), size, slack);
        let a = positions_for(size, parallel, perp, slack, n - 1);
        let b = unspanned(parallel, windows(p, perp, size), size, slack);
        assert(mirror_all(a + b) =~= mirror_all(a) + mirror_all(b));
    }
}

} // verus!
